//! The search for the surface of a cluster: starting from the sites on the
//! bounding box, the empty sites are explored layer by layer through the
//! neighbor lists. An occupied site met on the way belongs to the surface;
//! the empty site from which it was met belongs to the near surface.

use crate::fnv_collections::{
    site_map_get, site_set_contains, site_set_extend, site_set_insert, site_set_items,
    site_set_new,
};
use crate::start_sites::{get_start_positions, start_sites};
use fnv::FnvBuildHasher;
use std::collections::{HashMap, HashSet};
use vstd::prelude::*;
use vstd::set_lib::*;

verus! {

/// `n` is one of the neighbors listed for site `s`.
pub open spec fn adjacent(nn: Map<u32, [u32; 12]>, s: u32, n: u32) -> bool {
    nn.contains_key(s) && nn[s]@.contains(n)
}

/// Step `i` of `p` goes to a listed neighbor that is not occupied.
pub open spec fn open_step(nn: Map<u32, [u32; 12]>, occ: Set<u32>, p: Seq<u32>, i: int) -> bool {
    adjacent(nn, p[i], p[i + 1]) && !occ.contains(p[i + 1])
}

/// `p` starts at a start site and then only steps onto unoccupied neighbors.
pub open spec fn is_open_path(
    nn: Map<u32, [u32; 12]>,
    occ: Set<u32>,
    start: Set<u32>,
    p: Seq<u32>,
) -> bool {
    &&& p.len() > 0
    &&& start.contains(p[0])
    &&& forall|i: int| 0 <= i < p.len() - 1 ==> #[trigger] open_step(nn, occ, p, i)
}

/// Site `s` is the end of an open path.
pub open spec fn reachable(nn: Map<u32, [u32; 12]>, occ: Set<u32>, start: Set<u32>, s: u32) -> bool {
    exists|p: Seq<u32>| #[trigger] is_open_path(nn, occ, start, p) && p.last() == s
}

/// The sites that the search visits: the ends of all open paths.
pub open spec fn reach_set(nn: Map<u32, [u32; 12]>, occ: Set<u32>, start: Set<u32>) -> Set<u32> {
    Set::new(|s: u32| reachable(nn, occ, start, s))
}

/// Some site of `sites` lists `n` as a neighbor.
pub open spec fn touches(nn: Map<u32, [u32; 12]>, sites: Set<u32>, n: u32) -> bool {
    exists|s: u32| #[trigger] sites.contains(s) && adjacent(nn, s, n)
}

/// The occupied sites, other than start sites, that are neighbors of `sites`.
pub open spec fn surface_from(
    nn: Map<u32, [u32; 12]>,
    occ: Set<u32>,
    start: Set<u32>,
    sites: Set<u32>,
) -> Set<u32> {
    Set::new(|n: u32| occ.contains(n) && !start.contains(n) && touches(nn, sites, n))
}

/// The sites of `sites` that have an occupied neighbor other than a start site.
pub open spec fn near_surface_from(
    nn: Map<u32, [u32; 12]>,
    occ: Set<u32>,
    start: Set<u32>,
    sites: Set<u32>,
) -> Set<u32> {
    Set::new(
        |s: u32|
            sites.contains(s) && exists|n: u32|
                #[trigger] adjacent(nn, s, n) && occ.contains(n) && !start.contains(n),
    )
}

/// The surface: occupied sites, other than start sites, next to a visited site.
pub open spec fn surface_set(nn: Map<u32, [u32; 12]>, occ: Set<u32>, start: Set<u32>) -> Set<u32> {
    surface_from(nn, occ, start, reach_set(nn, occ, start))
}

/// The near surface: visited sites next to an occupied site other than a start site.
pub open spec fn near_surface_set(
    nn: Map<u32, [u32; 12]>,
    occ: Set<u32>,
    start: Set<u32>,
) -> Set<u32> {
    near_surface_from(nn, occ, start, reach_set(nn, occ, start))
}

/// Every site that the search visits has a neighbor list.
pub open spec fn search_stays_in_map(
    nn: Map<u32, [u32; 12]>,
    occ: Set<u32>,
    start: Set<u32>,
) -> bool {
    forall|s: u32| reachable(nn, occ, start, s) ==> #[trigger] nn.contains_key(s)
}

/// A start site is reachable.
pub proof fn lemma_start_reachable(
    nn: Map<u32, [u32; 12]>,
    occ: Set<u32>,
    start: Set<u32>,
    s: u32,
)
    requires
        start.contains(s),
    ensures
        reachable(nn, occ, start, s),
{
    let p = seq![s];
    assert(is_open_path(nn, occ, start, p));
}

/// Every set of `u32` has at most as many elements as there are `u32` values.
proof fn lemma_u32_set_bounded(s: Set<u32>)
    ensures
        s.finite(),
        s.len() <= Set::<u32>::full().len(),
{
    <u32 as FiniteFull>::full_properties();
    assert(Set::<u32>::full().finite());
    assert(s.subset_of(Set::<u32>::full()));
    lemma_set_subset_finite(Set::<u32>::full(), s);
    lemma_len_subset(s, Set::<u32>::full());
}

/// The unoccupied, unseen neighbors of `sites`: the next layer.
pub open spec fn step_frontier(
    nn: Map<u32, [u32; 12]>,
    occ: Set<u32>,
    seen: Set<u32>,
    sites: Set<u32>,
) -> Set<u32> {
    Set::new(|n: u32| !seen.contains(n) && !occ.contains(n) && touches(nn, sites, n))
}

/// The occupied, unseen neighbors of `sites`.
pub open spec fn step_surface(
    nn: Map<u32, [u32; 12]>,
    occ: Set<u32>,
    seen: Set<u32>,
    sites: Set<u32>,
) -> Set<u32> {
    Set::new(|n: u32| !seen.contains(n) && occ.contains(n) && touches(nn, sites, n))
}

/// The sites of `sites` with an occupied, unseen neighbor.
pub open spec fn step_near(
    nn: Map<u32, [u32; 12]>,
    occ: Set<u32>,
    seen: Set<u32>,
    sites: Set<u32>,
) -> Set<u32> {
    Set::new(
        |s: u32|
            sites.contains(s) && exists|n: u32|
                #[trigger] adjacent(nn, s, n) && !seen.contains(n) && occ.contains(n),
    )
}

/// The visited set at the end of a search that starts with `visited` and
/// the layer `current` and steps onto sites outside `occ`: each layer is
/// added to the visited set before the next one is explored, so every layer
/// but the last (the one with no next layer) ends up in it.
pub open spec fn search_visited(
    nn: Map<u32, [u32; 12]>,
    occ: Set<u32>,
    visited: Set<u32>,
    current: Set<u32>,
) -> Set<u32>
    decreases Set::<u32>::full().len() - (visited + current).len(),
{
    let next = step_frontier(nn, occ, visited + current, current);
    if next.is_empty() {
        visited
    } else {
        proof {
            lemma_layer_grows(nn, occ, visited, current);
        }
        search_visited(nn, occ, visited + current, next)
    }
}

/// A non-empty next layer makes the seen sites strictly more.
pub proof fn lemma_layer_grows(nn: Map<u32, [u32; 12]>, occ: Set<u32>, visited: Set<u32>, current: Set<u32>)
    requires
        !step_frontier(nn, occ, visited + current, current).is_empty(),
    ensures
        (visited + current).len() < (visited + current + step_frontier(nn, occ, visited + current, current)).len(),
        (visited + current + step_frontier(nn, occ, visited + current, current)).len() <= Set::<u32>::full().len(),
{
    let seen = visited + current;
    let next = step_frontier(nn, occ, seen, current);
    let n = choose|n: u32| next.contains(n);
    lemma_u32_set_bounded(seen);
    lemma_u32_set_bounded(seen + next);
    assert(seen.insert(n).subset_of(seen + next));
    lemma_len_subset(seen.insert(n), seen + next);
}

/// The last position of `p` that holds a site of `c`, when its first does.
proof fn lemma_last_in(p: Seq<u32>, c: Set<u32>, k: int) -> (j: int)
    requires
        0 <= k < p.len(),
        c.contains(p[0]),
        forall|m: int| k < m < p.len() ==> !c.contains(#[trigger] p[m]),
    ensures
        0 <= j <= k,
        c.contains(p[j]),
        forall|m: int| j < m < p.len() ==> !c.contains(#[trigger] p[m]),
    decreases k,
{
    if c.contains(p[k]) {
        k
    } else {
        lemma_last_in(p, c, k - 1)
    }
}

/// The sites reached from the layer `c` are `c` and the sites reached from
/// the next layer when `c` is seen too.
pub proof fn lemma_reach_split(nn: Map<u32, [u32; 12]>, b: Set<u32>, c: Set<u32>)
    ensures
        reach_set(nn, b, c) == c + reach_set(nn, b + c, step_frontier(nn, b, b + c, c)),
{
    let f = step_frontier(nn, b, b + c, c);
    let r0 = reach_set(nn, b, c);
    let r1 = reach_set(nn, b + c, f);
    assert forall|x: u32| #[trigger] r0.contains(x) implies (c + r1).contains(x) by {
        let p = choose|p: Seq<u32>| #[trigger] is_open_path(nn, b, c, p) && p.last() == x;
        let j = lemma_last_in(p, c, p.len() - 1);
        if j < p.len() - 1 {
            let q = p.subrange(j + 1, p.len() as int);
            assert(open_step(nn, b, p, j));
            assert(touches(nn, c, p[j + 1])) by {
                assert(c.contains(p[j]) && adjacent(nn, p[j], p[j + 1]));
            }
            assert(q[0] == p[j + 1]);
            assert(f.contains(q[0]));
            assert forall|i: int| 0 <= i < q.len() - 1 implies #[trigger] open_step(nn, b + c, q, i) by {
                assert(open_step(nn, b, p, j + 1 + i));
                assert(q[i] == p[j + 1 + i]);
                assert(q[i + 1] == p[j + 1 + i + 1]);
                assert(!c.contains(p[j + 1 + i + 1]));
            }
            assert(is_open_path(nn, b + c, f, q));
            assert(q.last() == x);
            assert(r1.contains(x));
        }
    }
    assert forall|x: u32| #[trigger] (c + r1).contains(x) implies r0.contains(x) by {
        if c.contains(x) {
            lemma_start_reachable(nn, b, c, x);
        } else {
            let q = choose|q: Seq<u32>| #[trigger] is_open_path(nn, b + c, f, q) && q.last() == x;
            let s0 = choose|s0: u32| #[trigger] c.contains(s0) && adjacent(nn, s0, q[0]);
            let p = seq![s0] + q;
            assert forall|i: int| 0 <= i < p.len() - 1 implies #[trigger] open_step(nn, b, p, i) by {
                if i == 0 {
                    assert(p[1] == q[0]);
                } else {
                    assert(open_step(nn, b + c, q, i - 1));
                    assert(p[i] == q[i - 1]);
                    assert(p[i + 1] == q[i]);
                }
            }
            assert(is_open_path(nn, b, c, p));
            assert(p.last() == x);
        }
    }
    assert(r0 =~= c + r1);
}

/// Taking the contributions of two sets of sites together is taking those of
/// their union.
proof fn lemma_from_union(
    nn: Map<u32, [u32; 12]>,
    occ: Set<u32>,
    start: Set<u32>,
    a: Set<u32>,
    b: Set<u32>,
)
    ensures
        surface_from(nn, occ, start, a + b) == surface_from(nn, occ, start, a) + surface_from(
            nn,
            occ,
            start,
            b,
        ),
        near_surface_from(nn, occ, start, a + b) == near_surface_from(nn, occ, start, a)
            + near_surface_from(nn, occ, start, b),
{
    assert forall|n: u32| #[trigger] surface_from(nn, occ, start, a + b).contains(n) implies (
    surface_from(nn, occ, start, a) + surface_from(nn, occ, start, b)).contains(n) by {
        let s = choose|s: u32| #[trigger] (a + b).contains(s) && adjacent(nn, s, n);
        if a.contains(s) {
            assert(touches(nn, a, n));
        } else {
            assert(touches(nn, b, n));
        }
    }
    assert forall|n: u32| #[trigger]
        (surface_from(nn, occ, start, a) + surface_from(nn, occ, start, b)).contains(
            n,
        ) implies surface_from(nn, occ, start, a + b).contains(n) by {
        if touches(nn, a, n) {
            let s = choose|s: u32| #[trigger] a.contains(s) && adjacent(nn, s, n);
            assert((a + b).contains(s));
        } else {
            let s = choose|s: u32| #[trigger] b.contains(s) && adjacent(nn, s, n);
            assert((a + b).contains(s));
        }
    }
    assert(surface_from(nn, occ, start, a + b) =~= surface_from(nn, occ, start, a) + surface_from(
        nn,
        occ,
        start,
        b,
    ));
    assert(near_surface_from(nn, occ, start, a + b) =~= near_surface_from(nn, occ, start, a)
        + near_surface_from(nn, occ, start, b));
}

/// Explores the layer `current_positions` and, while the next layer is not
/// empty, the layers after it. Every occupied neighbor met that is neither
/// visited nor in the current layer is added to `surface`, and the site from
/// which it was met to `near_surface`; the unoccupied ones form the next
/// layer. Before moving on, the current layer is added to `visited`.
///
/// So the search reaches the sites of `current_positions` and those reached
/// from them by steps onto sites neither occupied nor visited before the
/// search; every such site has a neighbor list.
fn atom_layering(
    current_positions: HashSet<u32, FnvBuildHasher>,
    visited: &mut HashSet<u32, FnvBuildHasher>,
    nn: &HashMap<u32, [u32; 12], FnvBuildHasher>,
    onlyocc: &HashSet<u32, FnvBuildHasher>,
    surface: &mut HashSet<u32, FnvBuildHasher>,
    near_surface: &mut HashSet<u32, FnvBuildHasher>,
)
    requires
        search_stays_in_map(nn@, onlyocc@ + old(visited)@, current_positions@),
    ensures
        final(surface)@ == old(surface)@ + surface_from(
            nn@,
            onlyocc@,
            old(visited)@ + current_positions@,
            reach_set(nn@, onlyocc@ + old(visited)@, current_positions@),
        ),
        final(near_surface)@ == old(near_surface)@ + near_surface_from(
            nn@,
            onlyocc@,
            old(visited)@ + current_positions@,
            reach_set(nn@, onlyocc@ + old(visited)@, current_positions@),
        ),
        final(visited)@ == search_visited(nn@, onlyocc@, old(visited)@, current_positions@),
{
    let _ = try_atom_layering(current_positions, visited, nn, onlyocc, surface, near_surface);
}

/// `atom_layering`, for searches that may reach a site without a neighbor
/// list: the result is `false` exactly then (the sets have then only grown),
/// `true` otherwise.
fn try_atom_layering(
    current_positions: HashSet<u32, FnvBuildHasher>,
    visited: &mut HashSet<u32, FnvBuildHasher>,
    nn: &HashMap<u32, [u32; 12], FnvBuildHasher>,
    onlyocc: &HashSet<u32, FnvBuildHasher>,
    surface: &mut HashSet<u32, FnvBuildHasher>,
    near_surface: &mut HashSet<u32, FnvBuildHasher>,
) -> (complete: bool)
    ensures
        complete == search_stays_in_map(nn@, onlyocc@ + old(visited)@, current_positions@),
        complete ==> final(surface)@ == old(surface)@ + surface_from(
            nn@,
            onlyocc@,
            old(visited)@ + current_positions@,
            reach_set(nn@, onlyocc@ + old(visited)@, current_positions@),
        ),
        complete ==> final(near_surface)@ == old(near_surface)@ + near_surface_from(
            nn@,
            onlyocc@,
            old(visited)@ + current_positions@,
            reach_set(nn@, onlyocc@ + old(visited)@, current_positions@),
        ),
        complete ==> final(visited)@ == search_visited(
            nn@,
            onlyocc@,
            old(visited)@,
            current_positions@,
        ),
        old(surface)@.subset_of(final(surface)@),
        old(near_surface)@.subset_of(final(near_surface)@),
        old(visited)@.subset_of(final(visited)@),
    decreases Set::<u32>::full().len() - (old(visited)@ + current_positions@).len(),
{
    let ghost g = nn@;
    let ghost occ = onlyocc@;
    let ghost cur = current_positions@;
    let ghost v0 = visited@;
    let ghost seen = visited@ + current_positions@;
    let ghost surface0 = surface@;
    let ghost near0 = near_surface@;
    let mut future_positions = site_set_new();
    let sites = site_set_items(&current_positions);
    let ghost mut done: Set<u32> = Set::empty();
    let mut i: usize = 0;
    while i < sites.len()
        invariant
            0 <= i <= sites.len(),
            g == nn@,
            occ == onlyocc@,
            cur == current_positions@,
            v0 == visited@,
            seen == v0 + cur,
            surface0 == old(surface)@,
            near0 == old(near_surface)@,
            v0 == old(visited)@,
            forall|s: u32| done.contains(s) ==> #[trigger] g.contains_key(s),
            forall|k: u32| cur.contains(k) <==> sites@.contains(k),
            forall|s: u32| done.contains(s) <==> exists|k: int| 0 <= k < i && sites@[k] == s,
            future_positions@ == step_frontier(g, occ, seen, done),
            surface@ == surface0 + step_surface(g, occ, seen, done),
            near_surface@ == near0 + step_near(g, occ, seen, done),
        decreases sites.len() - i,
    {
        let site: u32 = sites[i];
        assert(cur.contains(site));
        let neighbors: [u32; 12] = match site_map_get(nn, site) {
            Some(neighbors) => neighbors,
            None => {
                proof {
                    lemma_start_reachable(g, occ + v0, cur, site);
                    assert(surface0.subset_of(surface@));
                    assert(near0.subset_of(near_surface@));
                }
                return false;
            },
        };
        let ghost nb = neighbors@;
        let mut j: usize = 0;
        while j < 12
            invariant
                0 <= j <= 12,
                i < sites.len(),
                site == sites@[i as int],
                g == nn@,
                occ == onlyocc@,
                cur == current_positions@,
                v0 == visited@,
                seen == v0 + cur,
                g.contains_key(site),
                g[site] == neighbors,
                nb == neighbors@,
                future_positions@ == step_frontier(g, occ, seen, done) + Set::new(
                    |n: u32| !seen.contains(n) && !occ.contains(n) && nb.take(j as int).contains(n),
                ),
                surface@ == surface0 + step_surface(g, occ, seen, done) + Set::new(
                    |n: u32| !seen.contains(n) && occ.contains(n) && nb.take(j as int).contains(n),
                ),
                near_surface@ == near0 + step_near(g, occ, seen, done) + Set::new(
                    |s: u32|
                        s == site && exists|n: u32|
                            #[trigger] nb.take(j as int).contains(n) && !seen.contains(n)
                                && occ.contains(n),
                ),
            decreases 12 - j,
        {
            let neighbor: u32 = neighbors[j];
            assert(nb.take(j + 1) =~= nb.take(j as int).push(neighbor));
            assert(nb.take(j + 1)[j as int] == neighbor);
            let ghost t0 = nb.take(j as int);
            let ghost t1 = nb.take(j + 1);
            let ghost old_hit = exists|n: u32|
                #[trigger] t0.contains(n) && !seen.contains(n) && occ.contains(n);
            let ghost new_hit = exists|n: u32|
                #[trigger] t1.contains(n) && !seen.contains(n) && occ.contains(n);
            assert(new_hit == (old_hit || (!seen.contains(neighbor) && occ.contains(neighbor)))) by {
                if new_hit {
                    let n = choose|n: u32|
                        #[trigger] t1.contains(n) && !seen.contains(n) && occ.contains(n);
                    if n != neighbor {
                        let k = choose|k: int| 0 <= k < t1.len() && #[trigger] t1[k] == n;
                        assert(t0[k] == n);
                        assert(t0.contains(n));
                    }
                }
                if old_hit {
                    let n = choose|n: u32|
                        #[trigger] t0.contains(n) && !seen.contains(n) && occ.contains(n);
                    let k = choose|k: int| 0 <= k < t0.len() && #[trigger] t0[k] == n;
                    assert(t1[k] == n);
                    assert(t1.contains(n));
                }
                if !seen.contains(neighbor) && occ.contains(neighbor) {
                    assert(t1.contains(neighbor));
                }
            }
            let in_seen: bool = site_set_contains(visited, neighbor) || site_set_contains(
                &current_positions,
                neighbor,
            );
            if in_seen {
            } else if site_set_contains(onlyocc, neighbor) {
                site_set_insert(surface, neighbor);
                site_set_insert(near_surface, site);
            } else {
                site_set_insert(&mut future_positions, neighbor);
            }
            proof {
                assert(nb.take(j + 1).contains(neighbor));
            }
            j = j + 1;
            assert(future_positions@ =~= step_frontier(g, occ, seen, done) + Set::new(
                |n: u32| !seen.contains(n) && !occ.contains(n) && nb.take(j as int).contains(n),
            ));
            assert(surface@ =~= surface0 + step_surface(g, occ, seen, done) + Set::new(
                |n: u32| !seen.contains(n) && occ.contains(n) && nb.take(j as int).contains(n),
            ));
            assert(near_surface@ =~= near0 + step_near(g, occ, seen, done) + Set::new(
                |s: u32|
                    s == site && exists|n: u32|
                        #[trigger] nb.take(j as int).contains(n) && !seen.contains(n)
                            && occ.contains(n),
            ));
        }
        proof {
            assert(nb.take(12) =~= nb);
            let done1 = done.insert(site);
            assert forall|n: u32| #[trigger] touches(g, done1, n) <==> (touches(g, done, n) || nb.contains(n)) by {
                if touches(g, done1, n) {
                    let s = choose|s: u32| #[trigger] done1.contains(s) && adjacent(g, s, n);
                    if s != site {
                        assert(done.contains(s));
                    }
                }
                if nb.contains(n) {
                    assert(done1.contains(site) && adjacent(g, site, n));
                }
                if touches(g, done, n) {
                    let s = choose|s: u32| #[trigger] done.contains(s) && adjacent(g, s, n);
                    assert(done1.contains(s));
                }
            }
            assert(future_positions@ =~= step_frontier(g, occ, seen, done1));
            assert(surface@ =~= surface0 + step_surface(g, occ, seen, done1));
            let hit = exists|n: u32|
                #[trigger] nb.take(12).contains(n) && !seen.contains(n) && occ.contains(n);
            assert(hit == exists|n: u32|
                #[trigger] adjacent(g, site, n) && !seen.contains(n) && occ.contains(n)) by {
                if hit {
                    let n = choose|n: u32|
                        #[trigger] nb.take(12).contains(n) && !seen.contains(n) && occ.contains(n);
                    assert(adjacent(g, site, n));
                }
                if exists|n: u32| #[trigger] adjacent(g, site, n) && !seen.contains(n) && occ.contains(n) {
                    let n = choose|n: u32|
                        #[trigger] adjacent(g, site, n) && !seen.contains(n) && occ.contains(n);
                    assert(nb.take(12).contains(n));
                }
            }
            assert(near_surface@ =~= near0 + step_near(g, occ, seen, done1));
            assert forall|s: u32| done1.contains(s) <==> exists|k: int| 0 <= k < i + 1 && sites@[k] == s by {
                if s == site {
                    assert(0 <= i < i + 1 && sites@[i as int] == s);
                }
                if exists|k: int| 0 <= k < i + 1 && sites@[k] == s {
                    let k = choose|k: int| 0 <= k < i + 1 && sites@[k] == s;
                    if k < i {
                        assert(done.contains(s));
                    }
                }
            }
            done = done1;
        }
        i = i + 1;
    }
    proof {
        assert(done =~= cur) by {
            assert forall|s: u32| cur.contains(s) implies done.contains(s) by {
                assert(sites@.contains(s));
                let k = choose|k: int| 0 <= k < sites@.len() && sites@[k] == s;
                assert(0 <= k < i && sites@[k] == s);
            }
            assert forall|s: u32| done.contains(s) implies cur.contains(s) by {
                let k = choose|k: int| 0 <= k < i && sites@[k] == s;
                assert(sites@.contains(s));
            }
        }
        assert(surface@ =~= surface0 + surface_from(g, occ, seen, cur));
        assert(near_surface@ =~= near0 + near_surface_from(g, occ, seen, cur));
    }
    proof {
        lemma_reach_split(g, occ + v0, cur);
        assert(step_frontier(g, occ + v0, occ + v0 + cur, cur) =~= future_positions@);
        assert(occ + v0 + cur =~= occ + seen);
    }
    let ghost r0 = reach_set(g, occ + v0, cur);
    let ghost r1 = reach_set(g, occ + seen, future_positions@);
    if !future_positions.is_empty() {
        site_set_extend(visited, &current_positions);
        proof {
            lemma_layer_grows(g, occ, v0, cur);
        }
        let ghost fut = future_positions@;
        let ghost surface1 = surface@;
        let ghost near1 = near_surface@;
        let complete = try_atom_layering(
            future_positions,
            visited,
            nn,
            onlyocc,
            surface,
            near_surface,
        );
        proof {
            assert(r0 == cur + r1);
            if complete {
                assert forall|s: u32| reachable(g, occ + v0, cur, s) implies #[trigger] g.contains_key(s) by {
                    assert(r0.contains(s));
                    if !cur.contains(s) {
                        assert(r1.contains(s));
                    } else {
                        assert(done.contains(s));
                    }
                }
                assert(surface_from(g, occ, seen + fut, r1) =~= surface_from(g, occ, seen, r1));
                assert(near_surface_from(g, occ, seen + fut, r1) =~= near_surface_from(g, occ, seen, r1));
                lemma_from_union(g, occ, seen, cur, r1);
            } else {
                let s = choose|s: u32| reachable(g, occ + seen, fut, s) && !#[trigger] g.contains_key(s);
                assert(r1.contains(s));
                assert(r0.contains(s));
            }
        }
        complete
    } else {
        proof {
            assert(r1 =~= Set::<u32>::empty());
            assert(r0 =~= cur);
            assert forall|s: u32| reachable(g, occ + v0, cur, s) implies #[trigger] g.contains_key(s) by {
                assert(r0.contains(s));
                assert(done.contains(s));
            }
        }
        true
    }
}

/// The surface of the cluster of occupied sites `onlyocc` and the near
/// surface around it. The search starts from the sites on the bounding box
/// of `sites` and walks through unoccupied neighbors. The first set holds the
/// occupied sites (other than start sites) next to a visited site, the
/// second the visited sites next to such an occupied site.
pub fn surface(
    onlyocc: &HashSet<u32, FnvBuildHasher>,
    nn: &HashMap<u32, [u32; 12], FnvBuildHasher>,
    sites: &[[i64; 3]],
) -> (r: (HashSet<u32, FnvBuildHasher>, HashSet<u32, FnvBuildHasher>))
    requires
        sites.len() > 0,
        search_stays_in_map(nn@, onlyocc@, start_sites(sites@)),
    ensures
        r.0@ == surface_set(nn@, onlyocc@, start_sites(sites@)),
        r.1@ == near_surface_set(nn@, onlyocc@, start_sites(sites@)),
{
    let mut visited = site_set_new();
    let mut current_positions = site_set_new();
    let mut surface = site_set_new();
    let mut near_surface = site_set_new();
    get_start_positions(sites, &mut current_positions);
    let ghost start = start_sites(sites@);
    proof {
        assert(current_positions@ =~= start);
        assert(onlyocc@ + visited@ =~= onlyocc@);
        assert(visited@ + current_positions@ =~= start);
    }
    atom_layering(current_positions, &mut visited, nn, onlyocc, &mut surface, &mut near_surface);
    proof {
        assert(surface@ =~= surface_set(nn@, onlyocc@, start));
        assert(near_surface@ =~= near_surface_set(nn@, onlyocc@, start));
    }
    (surface, near_surface)
}

/// `surface`, for inputs on which the search may reach a site without a
/// neighbor list: `None` exactly then, the two sets of `surface` otherwise.
pub fn try_surface(
    onlyocc: &HashSet<u32, FnvBuildHasher>,
    nn: &HashMap<u32, [u32; 12], FnvBuildHasher>,
    sites: &[[i64; 3]],
) -> (r: Option<(HashSet<u32, FnvBuildHasher>, HashSet<u32, FnvBuildHasher>)>)
    requires
        sites.len() > 0,
    ensures
        r is Some <==> search_stays_in_map(nn@, onlyocc@, start_sites(sites@)),
        r matches Some(sets) ==> sets.0@ == surface_set(nn@, onlyocc@, start_sites(sites@)),
        r matches Some(sets) ==> sets.1@ == near_surface_set(nn@, onlyocc@, start_sites(sites@)),
{
    let mut visited = site_set_new();
    let mut current_positions = site_set_new();
    let mut surface = site_set_new();
    let mut near_surface = site_set_new();
    get_start_positions(sites, &mut current_positions);
    let ghost start = start_sites(sites@);
    proof {
        assert(current_positions@ =~= start);
        assert(onlyocc@ + visited@ =~= onlyocc@);
        assert(visited@ + current_positions@ =~= start);
    }
    let complete = try_atom_layering(
        current_positions,
        &mut visited,
        nn,
        onlyocc,
        &mut surface,
        &mut near_surface,
    );
    if !complete {
        return None;
    }
    proof {
        assert(surface@ =~= surface_set(nn@, onlyocc@, start));
        assert(near_surface@ =~= near_surface_set(nn@, onlyocc@, start));
    }
    Some((surface, near_surface))
}

/// The search visits no occupied site but start sites.
pub proof fn lemma_reach_avoids_cluster(nn: Map<u32, [u32; 12]>, occ: Set<u32>, start: Set<u32>)
    ensures
        forall|s: u32| #[trigger]
            reach_set(nn, occ, start).contains(s) ==> start.contains(s) || !occ.contains(s),
{
    assert forall|s: u32| #[trigger] reach_set(nn, occ, start).contains(s) implies start.contains(s)
        || !occ.contains(s) by {
        let p = choose|p: Seq<u32>| #[trigger] is_open_path(nn, occ, start, p) && p.last() == s;
        if p.len() > 1 {
            assert(open_step(nn, occ, p, p.len() - 2));
        }
    }
}

/// The surface is made of occupied sites that are not start sites; the near
/// surface of visited sites that are unoccupied or start sites.
pub proof fn lemma_surface_sides(nn: Map<u32, [u32; 12]>, occ: Set<u32>, start: Set<u32>)
    ensures
        surface_set(nn, occ, start).subset_of(occ),
        surface_set(nn, occ, start).disjoint(start),
        near_surface_set(nn, occ, start).subset_of(reach_set(nn, occ, start)),
        forall|s: u32| #[trigger]
            near_surface_set(nn, occ, start).contains(s) ==> start.contains(s) || !occ.contains(s),
{
    lemma_reach_avoids_cluster(nn, occ, start);
    let near = near_surface_set(nn, occ, start);
    assert forall|s: u32| #[trigger] near.contains(s) implies start.contains(s) || !occ.contains(s) by {
        assert(reach_set(nn, occ, start).contains(s));
    }
}

/// Every surface site is a neighbor of a near-surface site, and every
/// near-surface site has a surface site among its neighbors.
pub proof fn lemma_surface_faces_near_surface(
    nn: Map<u32, [u32; 12]>,
    occ: Set<u32>,
    start: Set<u32>,
)
    ensures
        forall|n: u32| #[trigger]
            surface_set(nn, occ, start).contains(n) ==> exists|s: u32|
                near_surface_set(nn, occ, start).contains(s) && #[trigger] adjacent(nn, s, n),
        forall|s: u32| #[trigger]
            near_surface_set(nn, occ, start).contains(s) ==> exists|n: u32|
                surface_set(nn, occ, start).contains(n) && #[trigger] adjacent(nn, s, n),
{
    let surf = surface_set(nn, occ, start);
    let near = near_surface_set(nn, occ, start);
    let r = reach_set(nn, occ, start);
    assert forall|n: u32| #[trigger] surf.contains(n) implies exists|s: u32|
        near.contains(s) && #[trigger] adjacent(nn, s, n) by {
        let s = choose|s: u32| #[trigger] r.contains(s) && adjacent(nn, s, n);
        assert(near.contains(s));
    }
    assert forall|s: u32| #[trigger] near.contains(s) implies exists|n: u32|
        surf.contains(n) && #[trigger] adjacent(nn, s, n) by {
        let n = choose|n: u32| #[trigger] adjacent(nn, s, n) && occ.contains(n) && !start.contains(n);
        assert(r.contains(s));
        assert(touches(nn, r, n));
        assert(surf.contains(n));
    }
}

/// The surface is empty exactly when the near surface is.
pub proof fn lemma_surface_empty_iff(nn: Map<u32, [u32; 12]>, occ: Set<u32>, start: Set<u32>)
    ensures
        surface_set(nn, occ, start).is_empty() <==> near_surface_set(nn, occ, start).is_empty(),
{
    let surf = surface_set(nn, occ, start);
    let near = near_surface_set(nn, occ, start);
    let r = reach_set(nn, occ, start);
    if exists|n: u32| surf.contains(n) {
        let n = choose|n: u32| surf.contains(n);
        let s = choose|s: u32| #[trigger] r.contains(s) && adjacent(nn, s, n);
        assert(near.contains(s));
    }
    if exists|s: u32| near.contains(s) {
        let s = choose|s: u32| near.contains(s);
        let n = choose|n: u32| #[trigger] adjacent(nn, s, n) && occ.contains(n) && !start.contains(n);
        assert(touches(nn, r, n));
        assert(surf.contains(n));
    }
}

/// `n` is adjacent to `s` exactly when `s` has a neighbor list and `n` is
/// one of its twelve entries.
pub proof fn lemma_adjacent_is_listed(nn: Map<u32, [u32; 12]>, s: u32, n: u32)
    ensures
        adjacent(nn, s, n) <==> nn.contains_key(s) && exists|k: int| 0 <= k < 12 && #[trigger] nn[s][k] == n,
{
    if nn.contains_key(s) {
        assert(nn[s]@.len() == 12);
        if exists|k: int| 0 <= k < 12 && #[trigger] nn[s][k] == n {
            let k = choose|k: int| 0 <= k < 12 && #[trigger] nn[s][k] == n;
            assert(nn[s]@[k] == n);
        }
        if nn[s]@.contains(n) {
            let k = choose|k: int| 0 <= k < nn[s]@.len() && nn[s]@[k] == n;
            assert(nn[s][k] == n);
        }
    }
}

/// The search reaches every start site, and from every reached site with a
/// neighbor list it reaches each listed neighbor that is not occupied.
pub proof fn lemma_reach_takes_every_step(nn: Map<u32, [u32; 12]>, occ: Set<u32>, start: Set<u32>)
    ensures
        start.subset_of(reach_set(nn, occ, start)),
        forall|s: u32, k: int|
            reach_set(nn, occ, start).contains(s) && nn.contains_key(s) && 0 <= k < 12
                && !occ.contains(#[trigger] nn[s][k]) ==> reach_set(nn, occ, start).contains(nn[s][k]),
{
    assert forall|s: u32| start.contains(s) implies #[trigger] reach_set(nn, occ, start).contains(s) by {
        lemma_start_reachable(nn, occ, start, s);
    }
    assert forall|s: u32, k: int|
        reach_set(nn, occ, start).contains(s) && nn.contains_key(s) && 0 <= k < 12 && !occ.contains(
            #[trigger] nn[s][k],
        ) implies reach_set(nn, occ, start).contains(nn[s][k]) by {
        let n = nn[s][k];
        lemma_adjacent_is_listed(nn, s, n);
        let p = choose|p: Seq<u32>| #[trigger] is_open_path(nn, occ, start, p) && p.last() == s;
        let q = p.push(n);
        assert forall|i: int| 0 <= i < q.len() - 1 implies #[trigger] open_step(nn, occ, q, i) by {
            if i < p.len() - 1 {
                assert(open_step(nn, occ, p, i));
            }
        }
        assert(is_open_path(nn, occ, start, q));
    }
}

/// The search reaches nothing more: a set that holds the start sites and,
/// with every site that has a neighbor list, each listed neighbor that is
/// not occupied, holds every reached site.
pub proof fn lemma_reach_is_least(
    nn: Map<u32, [u32; 12]>,
    occ: Set<u32>,
    start: Set<u32>,
    x: Set<u32>,
)
    requires
        start.subset_of(x),
        forall|s: u32, k: int|
            x.contains(s) && nn.contains_key(s) && 0 <= k < 12 && !occ.contains(#[trigger] nn[s][k])
                ==> x.contains(nn[s][k]),
    ensures
        reach_set(nn, occ, start).subset_of(x),
{
    assert forall|v: u32| #[trigger] reach_set(nn, occ, start).contains(v) implies x.contains(v) by {
        let p = choose|p: Seq<u32>| #[trigger] is_open_path(nn, occ, start, p) && p.last() == v;
        lemma_open_path_in(nn, occ, start, x, p, p.len() - 1);
    }
}

/// The sites of an open path up to position `i` lie in such a set.
proof fn lemma_open_path_in(
    nn: Map<u32, [u32; 12]>,
    occ: Set<u32>,
    start: Set<u32>,
    x: Set<u32>,
    p: Seq<u32>,
    i: int,
)
    requires
        is_open_path(nn, occ, start, p),
        0 <= i < p.len(),
        start.subset_of(x),
        forall|s: u32, k: int|
            x.contains(s) && nn.contains_key(s) && 0 <= k < 12 && !occ.contains(#[trigger] nn[s][k])
                ==> x.contains(nn[s][k]),
    ensures
        x.contains(p[i]),
    decreases i,
{
    if i > 0 {
        lemma_open_path_in(nn, occ, start, x, p, i - 1);
        assert(open_step(nn, occ, p, i - 1));
        lemma_adjacent_is_listed(nn, p[i - 1], p[i]);
        let k = choose|k: int| 0 <= k < 12 && #[trigger] nn[p[i - 1]][k] == p[i];
        assert(!occ.contains(nn[p[i - 1]][k]));
    }
}

/// The surface holds each occupied, non-start neighbor listed for a reached
/// site, and the near surface each reached site with such a neighbor; and
/// they hold nothing else.
pub proof fn lemma_surface_from_lists(nn: Map<u32, [u32; 12]>, occ: Set<u32>, start: Set<u32>)
    ensures
        forall|r: u32, k: int|
            reach_set(nn, occ, start).contains(r) && nn.contains_key(r) && 0 <= k < 12 && occ.contains(
                #[trigger] nn[r][k],
            ) && !start.contains(nn[r][k]) ==> surface_set(nn, occ, start).contains(nn[r][k])
                && near_surface_set(nn, occ, start).contains(r),
        forall|n: u32|
            #[trigger] surface_set(nn, occ, start).contains(n) ==> occ.contains(n) && !start.contains(n)
                && exists|r: u32, k: int|
                reach_set(nn, occ, start).contains(r) && nn.contains_key(r) && 0 <= k < 12
                    && #[trigger] nn[r][k] == n,
        forall|r: u32|
            #[trigger] near_surface_set(nn, occ, start).contains(r) ==> reach_set(nn, occ, start).contains(r)
                && nn.contains_key(r) && exists|k: int|
                0 <= k < 12 && occ.contains(#[trigger] nn[r][k]) && !start.contains(nn[r][k]),
{
    let rs = reach_set(nn, occ, start);
    assert forall|r: u32, k: int|
        rs.contains(r) && nn.contains_key(r) && 0 <= k < 12 && occ.contains(#[trigger] nn[r][k])
            && !start.contains(nn[r][k]) implies surface_set(nn, occ, start).contains(nn[r][k])
        && near_surface_set(nn, occ, start).contains(r) by {
        lemma_adjacent_is_listed(nn, r, nn[r][k]);
        assert(adjacent(nn, r, nn[r][k]));
        assert(touches(nn, rs, nn[r][k]));
    }
    assert forall|n: u32| #[trigger] surface_set(nn, occ, start).contains(n) implies occ.contains(n)
        && !start.contains(n) && exists|r: u32, k: int|
        rs.contains(r) && nn.contains_key(r) && 0 <= k < 12 && #[trigger] nn[r][k] == n by {
        let r = choose|r: u32| #[trigger] rs.contains(r) && adjacent(nn, r, n);
        lemma_adjacent_is_listed(nn, r, n);
        let k = choose|k: int| 0 <= k < 12 && #[trigger] nn[r][k] == n;
        assert(rs.contains(r) && nn.contains_key(r) && 0 <= k < 12 && nn[r][k] == n);
    }
    assert forall|r: u32| #[trigger] near_surface_set(nn, occ, start).contains(r) implies rs.contains(r)
        && nn.contains_key(r) && exists|k: int|
        0 <= k < 12 && occ.contains(#[trigger] nn[r][k]) && !start.contains(nn[r][k]) by {
        let n = choose|n: u32| #[trigger] adjacent(nn, r, n) && occ.contains(n) && !start.contains(n);
        lemma_adjacent_is_listed(nn, r, n);
        let k = choose|k: int| 0 <= k < 12 && #[trigger] nn[r][k] == n;
        assert(occ.contains(nn[r][k]));
    }
}

/// The search never drops a visited site.
pub proof fn lemma_search_visited_grows(
    nn: Map<u32, [u32; 12]>,
    occ: Set<u32>,
    visited: Set<u32>,
    current: Set<u32>,
)
    ensures
        visited.subset_of(search_visited(nn, occ, visited, current)),
    decreases Set::<u32>::full().len() - (visited + current).len(),
{
    let next = step_frontier(nn, occ, visited + current, current);
    if !next.is_empty() {
        lemma_layer_grows(nn, occ, visited, current);
        lemma_search_visited_grows(nn, occ, visited + current, next);
    }
}

/// A layer none of whose sites lists a neighbor that is neither occupied,
/// visited nor in the layer is the last one: the search adds nothing to the
/// visited set. A layer with such a neighbor is added to the visited set.
pub proof fn lemma_search_visited_last_layer(
    nn: Map<u32, [u32; 12]>,
    occ: Set<u32>,
    visited: Set<u32>,
    current: Set<u32>,
)
    ensures
        (forall|s: u32, k: int|
            current.contains(s) && nn.contains_key(s) && 0 <= k < 12 ==> occ.contains(
                #[trigger] nn[s][k],
            ) || visited.contains(nn[s][k]) || current.contains(nn[s][k])) ==> search_visited(
            nn,
            occ,
            visited,
            current,
        ) == visited,
        (exists|s: u32, k: int|
            current.contains(s) && nn.contains_key(s) && 0 <= k < 12 && !occ.contains(
                #[trigger] nn[s][k],
            ) && !visited.contains(nn[s][k]) && !current.contains(nn[s][k])) ==> (visited
            + current).subset_of(search_visited(nn, occ, visited, current)),
{
    let next = step_frontier(nn, occ, visited + current, current);
    if forall|s: u32, k: int|
        current.contains(s) && nn.contains_key(s) && 0 <= k < 12 ==> occ.contains(#[trigger] nn[s][k])
            || visited.contains(nn[s][k]) || current.contains(nn[s][k]) {
        assert forall|n: u32| !next.contains(n) by {
            if next.contains(n) {
                let s = choose|s: u32| #[trigger] current.contains(s) && adjacent(nn, s, n);
                lemma_adjacent_is_listed(nn, s, n);
                let k = choose|k: int| 0 <= k < 12 && #[trigger] nn[s][k] == n;
                assert(occ.contains(nn[s][k]) || visited.contains(nn[s][k]) || current.contains(nn[s][k]));
            }
        }
        assert(next =~= Set::<u32>::empty());
    }
    if exists|s: u32, k: int|
        current.contains(s) && nn.contains_key(s) && 0 <= k < 12 && !occ.contains(#[trigger] nn[s][k])
            && !visited.contains(nn[s][k]) && !current.contains(nn[s][k]) {
        let (s, k) = choose|s: u32, k: int|
            current.contains(s) && nn.contains_key(s) && 0 <= k < 12 && !occ.contains(#[trigger] nn[s][k])
                && !visited.contains(nn[s][k]) && !current.contains(nn[s][k]);
        let n = nn[s][k];
        lemma_adjacent_is_listed(nn, s, n);
        assert(touches(nn, current, n));
        assert(next.contains(n));
        lemma_layer_grows(nn, occ, visited, current);
        lemma_search_visited_grows(nn, occ, visited + current, next);
    }
}

} // verus!
