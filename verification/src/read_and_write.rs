//! Placing the atoms of a sample onto the lattice sites, reading neighbor
//! lists, and listing the atoms of a frame to write.

use crate::atom_names::{atom_code, find_key_for_value, has_code, has_name, name_code};
use crate::fnv_collections::{
    site_map_get, site_set_contains, site_map_insert, site_map_with_capacity, site_set_insert, site_set_items,
    site_set_new,
};
use crate::text::{
    is_white, is_white_char, lemma_tokens_skip_token, lemma_tokens_skip_white, parse_u32,
    parse_u32_chars, text_chars, tokens,
};
use crate::layering::{adjacent, lemma_adjacent_is_listed, touches};
use crate::AtomPosition;
use fnv::FnvBuildHasher;
use std::collections::{HashMap, HashSet};
use vstd::prelude::*;

verus! {

/// The support metal, whose atoms mark their sites with code 100 and are
/// not part of the cluster.
pub open spec fn is_support_metal(name: Seq<char>) -> bool {
    name == seq!['A', 'l']
}

/// The code an atom of element `name` leaves on the sites it covers.
pub open spec fn atom_occ(names: Map<String, u8>, name: Seq<char>) -> u8 {
    if is_support_metal(name) {
        100
    } else {
        name_code(names, name)
    }
}

/// The code of `site` after the atoms were placed in order onto the sites
/// that each covers, when it held `before`: the code of the last atom that
/// covers it, or `before` when none does.
pub open spec fn deposited_occ(
    names: Map<String, u8>,
    atoms: Seq<(String, Vec<usize>)>,
    before: u8,
    site: usize,
) -> u8
    decreases atoms.len(),
{
    if atoms.len() == 0 {
        before
    } else if atoms.last().1@.contains(site) {
        atom_occ(names, atoms.last().0@)
    } else {
        deposited_occ(names, atoms.drop_last(), before, site)
    }
}

/// The sites (as `u32`) covered by an atom that is not of the support metal.
pub open spec fn deposited_sites(atoms: Seq<(String, Vec<usize>)>) -> Set<u32> {
    Set::new(
        |v: u32|
            exists|j: int, i: usize|
                0 <= j < atoms.len() && #[trigger] atoms[j].1@.contains(i) && !is_support_metal(
                    atoms[j].0@,
                ) && i as u32 == v,
    )
}

/// `a` and `b` differ at most in their occupation code.
pub open spec fn same_but_occ(a: AtomPosition, b: AtomPosition) -> bool {
    a.cn_metal == b.cn_metal && a.nn_support == b.nn_support && a.nn == b.nn
}

/// Every site the atom covers is a site of the lattice, and when it covers
/// some site and is not of the support metal its name is in the table.
pub open spec fn atom_placeable(names: Map<String, u8>, atom: (String, Vec<usize>), nsites: int) -> bool {
    &&& forall|i: usize| #[trigger] atom.1@.contains(i) ==> i < nsites
    &&& atom.1@.len() > 0 && !is_support_metal(atom.0@) ==> has_name(names, atom.0@)
}

/// Every atom can be placed.
pub open spec fn atoms_placeable(
    names: Map<String, u8>,
    atoms: Seq<(String, Vec<usize>)>,
    nsites: int,
) -> bool {
    forall|j: int| 0 <= j < atoms.len() ==> atom_placeable(names, #[trigger] atoms[j], nsites)
}

/// Places the atoms in order: every site that an atom covers gets the atom's
/// code, and every site covered by an atom other than the support metal is
/// added to the returned set.
fn deposit_atoms(
    atom_pos: &mut Vec<AtomPosition>,
    atoms: &Vec<(String, Vec<usize>)>,
    atom_names: &HashMap<String, u8>,
) -> (onlyocc: HashSet<u32, FnvBuildHasher>)
    requires
        atoms_placeable(atom_names@, atoms@, old(atom_pos)@.len() as int),
    ensures
        final(atom_pos)@.len() == old(atom_pos)@.len(),
        forall|i: int|
            0 <= i < final(atom_pos)@.len() ==> same_but_occ(
                #[trigger] final(atom_pos)@[i],
                old(atom_pos)@[i],
            ) && final(atom_pos)@[i].occ == deposited_occ(
                atom_names@,
                atoms@,
                old(atom_pos)@[i].occ,
                i as usize,
            ),
        onlyocc@ == deposited_sites(atoms@),
{
    let supp_metal: String = "Al".to_owned();
    proof {
        reveal_strlit("Al");
    }
    let mut onlyocc = site_set_new();
    let mut a: usize = 0;
    while a < atoms.len()
        invariant
            0 <= a <= atoms@.len(),
            supp_metal@ == seq!['A', 'l'],
            atoms_placeable(atom_names@, atoms@, old(atom_pos)@.len() as int),
            atom_pos@.len() == old(atom_pos)@.len(),
            forall|i: int|
                0 <= i < atom_pos@.len() ==> same_but_occ(#[trigger] atom_pos@[i], old(atom_pos)@[i])
                    && atom_pos@[i].occ == deposited_occ(
                    atom_names@,
                    atoms@.take(a as int),
                    old(atom_pos)@[i].occ,
                    i as usize,
                ),
            onlyocc@ == deposited_sites(atoms@.take(a as int)),
        decreases atoms.len() - a,
    {
        let name: &String = &atoms[a].0;
        let covered: &Vec<usize> = &atoms[a].1;
        let is_support: bool = *name == supp_metal;
        let code: u8 = if is_support {
            100
        } else if covered.len() > 0 {
            assert(atoms@[a as int].1@.len() > 0);
            match atom_code(atom_names, name) {
                Some(code) => code,
                None => 0,
            }
        } else {
            0
        };
        let ghost prev = atoms@.take(a as int);
        let ghost next = atoms@.take(a + 1);
        proof {
            assert(next.drop_last() =~= prev);
            assert(next.last() == atoms@[a as int]);
        }
        let mut k: usize = 0;
        while k < covered.len()
            invariant
                0 <= k <= covered@.len(),
                a < atoms@.len(),
                covered == atoms@[a as int].1,
                name == atoms@[a as int].0,
                is_support == is_support_metal(name@),
                covered@.len() > 0 ==> code == atom_occ(atom_names@, name@),
                atoms_placeable(atom_names@, atoms@, old(atom_pos)@.len() as int),
                atom_pos@.len() == old(atom_pos)@.len(),
                forall|i: int|
                    0 <= i < atom_pos@.len() ==> same_but_occ(
                        #[trigger] atom_pos@[i],
                        old(atom_pos)@[i],
                    ) && atom_pos@[i].occ == (if covered@.take(k as int).contains(i as usize) {
                        code
                    } else {
                        deposited_occ(atom_names@, prev, old(atom_pos)@[i].occ, i as usize)
                    }),
                onlyocc@ == deposited_sites(prev) + (if is_support {
                    Set::<u32>::empty()
                } else {
                    Set::new(|v: u32| exists|i: usize| #[trigger] covered@.take(k as int).contains(i) && i as u32 == v)
                }),
            decreases covered.len() - k,
        {
            let site: usize = covered[k];
            assert(atoms@[a as int].1@.contains(site));
            let ghost before = atom_pos@;
            let cur = &atom_pos[site];
            let updated = AtomPosition {
                occ: code,
                cn_metal: cur.cn_metal,
                nn_support: cur.nn_support,
                nn: cur.nn,
            };
            atom_pos.set(site, updated);
            if !is_support {
                site_set_insert(&mut onlyocc, site as u32);
            }
            proof {
                let t0 = covered@.take(k as int);
                let t1 = covered@.take(k + 1);
                assert(t1 =~= t0.push(site));
                assert(t1[k as int] == site);
                assert forall|x: usize| #[trigger] t1.contains(x) <==> (t0.contains(x) || x == site) by {
                    if t1.contains(x) {
                        let y = choose|y: int| 0 <= y < t1.len() && t1[y] == x;
                        if y < k {
                            assert(t0[y] == x);
                        }
                    }
                    if t0.contains(x) {
                        let y = choose|y: int| 0 <= y < t0.len() && t0[y] == x;
                        assert(t1[y] == x);
                    }
                }
                assert forall|i: int| 0 <= i < atom_pos@.len() implies same_but_occ(
                    #[trigger] atom_pos@[i],
                    old(atom_pos)@[i],
                ) && atom_pos@[i].occ == (if t1.contains(i as usize) {
                    code
                } else {
                    deposited_occ(atom_names@, prev, old(atom_pos)@[i].occ, i as usize)
                }) by {
                    if i != site as int {
                        assert(atom_pos@[i] == before[i]);
                        assert(atom_pos@.len() == atom_pos.len());
                        assert(i as usize != site);
                    }
                }
                if !is_support {
                    let s0 = Set::new(|v: u32| exists|i: usize| #[trigger] t0.contains(i) && i as u32 == v);
                    let s1 = Set::new(|v: u32| exists|i: usize| #[trigger] t1.contains(i) && i as u32 == v);
                    assert forall|v: u32| #[trigger] s1.contains(v) <==> s0.insert(site as u32).contains(v) by {
                        if s1.contains(v) {
                            let i = choose|i: usize| #[trigger] t1.contains(i) && i as u32 == v;
                            let x = choose|x: int| 0 <= x < t1.len() && t1[x] == i;
                            if x < k {
                                assert(t0[x] == i);
                                assert(t0.contains(i));
                            }
                        }
                        if s0.contains(v) {
                            let i = choose|i: usize| #[trigger] t0.contains(i) && i as u32 == v;
                            let x = choose|x: int| 0 <= x < t0.len() && t0[x] == i;
                            assert(t1[x] == i);
                            assert(t1.contains(i));
                        }
                        if v == site as u32 {
                            assert(t1.contains(site));
                        }
                    }
                    assert(s1 =~= s0.insert(site as u32));
                }
            }
            k = k + 1;
        }
        proof {
            assert(covered@.take(covered@.len() as int) =~= covered@);
            assert forall|i: int| 0 <= i < atom_pos@.len() implies #[trigger] atom_pos@[i].occ == deposited_occ(
                atom_names@,
                next,
                old(atom_pos)@[i].occ,
                i as usize,
            ) by {
                if covered@.contains(i as usize) {
                    assert(covered@.len() > 0);
                }
            }
            assert forall|v: u32| #[trigger] onlyocc@.contains(v) <==> deposited_sites(next).contains(v) by {
                if deposited_sites(next).contains(v) {
                    let (j, i) = choose|j: int, i: usize|
                        0 <= j < next.len() && #[trigger] next[j].1@.contains(i) && !is_support_metal(
                            next[j].0@,
                        ) && i as u32 == v;
                    if j < a {
                        assert(prev[j] == next[j]);
                        assert(deposited_sites(prev).contains(v));
                    } else {
                        assert(covered@.contains(i));
                    }
                }
                if deposited_sites(prev).contains(v) {
                    let (j, i) = choose|j: int, i: usize|
                        0 <= j < prev.len() && #[trigger] prev[j].1@.contains(i) && !is_support_metal(
                            prev[j].0@,
                        ) && i as u32 == v;
                    assert(next[j] == prev[j]);
                    assert(deposited_sites(next).contains(v));
                }
                if !is_support && (exists|i: usize| #[trigger] covered@.contains(i) && i as u32 == v) {
                    let i = choose|i: usize| #[trigger] covered@.contains(i) && i as u32 == v;
                    assert(next[a as int].1@.contains(i));
                    assert(deposited_sites(next).contains(v));
                }
            }
            assert(onlyocc@ =~= deposited_sites(next));
        }
        a = a + 1;
    }
    proof {
        assert(atoms@.take(atoms@.len() as int) =~= atoms@);
    }
    onlyocc
}

/// The occupation codes of the sites.
pub open spec fn occ_codes(atom_pos: Seq<AtomPosition>) -> Seq<u8> {
    atom_pos.map_values(|a: AtomPosition| a.occ)
}

/// The neighbors of the occupied sites.
pub open spec fn coat_sites(nn: Map<u32, [u32; 12]>, occupied: Set<u32>) -> Set<u32> {
    Set::new(|n: u32| touches(nn, occupied, n))
}

/// Coating can proceed: every occupied site has a neighbor list, every such
/// neighbor is a site of the lattice, and when some neighbor is empty
/// (code 255) the coating element is in the table.
pub open spec fn coat_ready(
    nn: Map<u32, [u32; 12]>,
    names: Map<String, u8>,
    occupied: Set<u32>,
    occ: Seq<u8>,
    coat: Seq<char>,
) -> bool {
    &&& forall|a: u32| #[trigger] occupied.contains(a) ==> nn.contains_key(a)
    &&& forall|n: u32| #[trigger] coat_sites(nn, occupied).contains(n) ==> n < occ.len()
    &&& (exists|n: u32| #[trigger] coat_sites(nn, occupied).contains(n) && occ[n as int] == 255)
        ==> has_name(names, coat)
}

/// The code of site `i` after coating: an empty neighbor of an occupied site
/// takes the coating element's code; every other site keeps its code.
pub open spec fn coated_occ(
    nn: Map<u32, [u32; 12]>,
    names: Map<String, u8>,
    occupied: Set<u32>,
    occ: Seq<u8>,
    coat: Seq<char>,
    i: int,
) -> u8 {
    if 0 <= i <= u32::MAX && coat_sites(nn, occupied).contains(i as u32) && occ[i] == 255 {
        name_code(names, coat)
    } else {
        occ[i]
    }
}

/// The occupied sites after coating: those before, and the empty neighbors
/// that were coated.
pub open spec fn coated_sites(nn: Map<u32, [u32; 12]>, occupied: Set<u32>, occ: Seq<u8>) -> Set<u32> {
    occupied + Set::new(|n: u32| coat_sites(nn, occupied).contains(n) && occ[n as int] == 255)
}

/// Every empty neighbor of an occupied site gets the coating element's code
/// and becomes occupied.
fn coat_cluster(
    atom_pos: &mut Vec<AtomPosition>,
    onlyocc: &mut HashSet<u32, FnvBuildHasher>,
    coat_atom: &String,
    atom_names: &HashMap<String, u8>,
    nn: &HashMap<u32, [u32; 12], FnvBuildHasher>,
)
    requires
        coat_ready(nn@, atom_names@, old(onlyocc)@, occ_codes(old(atom_pos)@), coat_atom@),
    ensures
        final(atom_pos)@.len() == old(atom_pos)@.len(),
        forall|i: int|
            0 <= i < final(atom_pos)@.len() ==> same_but_occ(
                #[trigger] final(atom_pos)@[i],
                old(atom_pos)@[i],
            ) && final(atom_pos)@[i].occ == coated_occ(
                nn@,
                atom_names@,
                old(onlyocc)@,
                occ_codes(old(atom_pos)@),
                coat_atom@,
                i,
            ),
        final(onlyocc)@ == coated_sites(nn@, old(onlyocc)@, occ_codes(old(atom_pos)@)),
{
    let ghost g = nn@;
    let ghost occupied = onlyocc@;
    let ghost occ0 = occ_codes(atom_pos@);
    let atoms = site_set_items(onlyocc);
    let mut all_neighbors: Vec<u32> = Vec::new();
    let ghost mut done: Set<u32> = Set::empty();
    let mut a: usize = 0;
    while a < atoms.len()
        invariant
            0 <= a <= atoms@.len(),
            g == nn@,
            forall|x: u32| occupied.contains(x) <==> atoms@.contains(x),
            coat_ready(g, atom_names@, occupied, occ0, coat_atom@),
            forall|x: u32| done.contains(x) <==> exists|y: int| 0 <= y < a && atoms@[y] == x,
            forall|n: u32| all_neighbors@.contains(n) <==> touches(g, done, n),
        decreases atoms.len() - a,
    {
        let atom: u32 = atoms[a];
        assert(occupied.contains(atom));
        let neighbors: [u32; 12] = match site_map_get(nn, atom) {
            Some(neighbors) => neighbors,
            None => {
                assert(false);
                [0u32; 12]
            },
        };
        let ghost nb = neighbors@;
        let ghost before = all_neighbors@;
        let mut j: usize = 0;
        while j < 12
            invariant
                0 <= j <= 12,
                nb == neighbors@,
                all_neighbors@ == before + nb.take(j as int),
            decreases 12 - j,
        {
            all_neighbors.push(neighbors[j]);
            assert(nb.take(j + 1) =~= nb.take(j as int).push(neighbors[j as int]));
            assert(all_neighbors@ =~= before + nb.take(j + 1));
            j = j + 1;
        }
        proof {
            assert(nb.take(12) =~= nb);
            let done1 = done.insert(atom);
            assert forall|n: u32| all_neighbors@.contains(n) <==> touches(g, done1, n) by {
                if all_neighbors@.contains(n) {
                    let y = choose|y: int| 0 <= y < all_neighbors@.len() && all_neighbors@[y] == n;
                    if y < before.len() {
                        assert(before[y] == n);
                        assert(before.contains(n));
                        let s = choose|s: u32| #[trigger] done.contains(s) && adjacent(g, s, n);
                        assert(done1.contains(s));
                    } else {
                        assert(nb[y - before.len()] == n);
                        assert(nb.contains(n));
                        assert(done1.contains(atom) && adjacent(g, atom, n));
                    }
                }
                if touches(g, done1, n) {
                    let s = choose|s: u32| #[trigger] done1.contains(s) && adjacent(g, s, n);
                    if s == atom {
                        let y = choose|y: int| 0 <= y < nb.len() && nb[y] == n;
                        assert(all_neighbors@[before.len() + y] == n);
                    } else {
                        assert(touches(g, done, n));
                        assert(before.contains(n));
                        let y = choose|y: int| 0 <= y < before.len() && before[y] == n;
                        assert(all_neighbors@[y] == n);
                    }
                }
            }
            assert forall|x: u32| done1.contains(x) <==> exists|y: int| 0 <= y < a + 1 && atoms@[y] == x by {
                if x == atom {
                    assert(atoms@[a as int] == x);
                }
                if exists|y: int| 0 <= y < a + 1 && atoms@[y] == x {
                    let y = choose|y: int| 0 <= y < a + 1 && atoms@[y] == x;
                    if y < a {
                        assert(done.contains(x));
                    }
                }
            }
            done = done1;
        }
        a = a + 1;
    }
    proof {
        assert(done =~= occupied) by {
            assert forall|x: u32| occupied.contains(x) implies done.contains(x) by {
                assert(atoms@.contains(x));
                let y = choose|y: int| 0 <= y < atoms@.len() && atoms@[y] == x;
            }
        }
    }
    let coat_code: Option<u8> = atom_code(atom_names, coat_atom);
    let ghost targets = coat_sites(g, occupied);
    let mut k: usize = 0;
    while k < all_neighbors.len()
        invariant
            0 <= k <= all_neighbors@.len(),
            g == nn@,
            forall|n: u32| all_neighbors@.contains(n) <==> targets.contains(n),
            targets == coat_sites(g, occupied),
            coat_ready(g, atom_names@, occupied, occ0, coat_atom@),
            coat_code == (if has_name(atom_names@, coat_atom@) {
                Some(name_code(atom_names@, coat_atom@))
            } else {
                None::<u8>
            }),
            occ0 == occ_codes(old(atom_pos)@),
            atom_pos@.len() == old(atom_pos)@.len(),
            forall|i: int|
                0 <= i < atom_pos@.len() ==> same_but_occ(#[trigger] atom_pos@[i], old(atom_pos)@[i])
                    && atom_pos@[i].occ == (if (exists|y: int| 0 <= y < k && all_neighbors@[y] as int == i)
                    && occ0[i] == 255 {
                    name_code(atom_names@, coat_atom@)
                } else {
                    occ0[i]
                }),
            onlyocc@ == occupied + Set::new(
                |n: u32| (exists|y: int| 0 <= y < k && all_neighbors@[y] == n) && occ0[n as int] == 255,
            ),
        decreases all_neighbors.len() - k,
    {
        let neighbor: u32 = all_neighbors[k];
        assert(all_neighbors@.contains(neighbor));
        assert(targets.contains(neighbor));
        let idx: usize = neighbor as usize;
        let ghost seen_before = exists|y: int| 0 <= y < k && all_neighbors@[y] as int == idx as int;
        let ghost before = atom_pos@;
        if atom_pos[idx].occ == 255 {
            let code: u8 = match coat_code {
                Some(code) => code,
                None => {
                    proof {
                        assert(occ0[idx as int] == 255);
                    }
                    0
                },
            };
            let cur = &atom_pos[idx];
            let updated = AtomPosition {
                occ: code,
                cn_metal: cur.cn_metal,
                nn_support: cur.nn_support,
                nn: cur.nn,
            };
            atom_pos.set(idx, updated);
            site_set_insert(onlyocc, neighbor);
        }
        proof {
            assert forall|i: int| 0 <= i < atom_pos@.len() implies same_but_occ(
                #[trigger] atom_pos@[i],
                old(atom_pos)@[i],
            ) && atom_pos@[i].occ == (if (exists|y: int|
                0 <= y < k + 1 && all_neighbors@[y] as int == i) && occ0[i] == 255 {
                name_code(atom_names@, coat_atom@)
            } else {
                occ0[i]
            }) by {
                if i == idx as int {
                    assert(all_neighbors@[k as int] as int == i);
                } else {
                    assert(atom_pos@[i] == before[i]);
                    if exists|y: int| 0 <= y < k + 1 && all_neighbors@[y] as int == i {
                        let y = choose|y: int| 0 <= y < k + 1 && all_neighbors@[y] as int == i;
                        assert(y != k);
                    }
                }
            }
            assert(onlyocc@ =~= occupied + Set::new(
                |n: u32| (exists|y: int| 0 <= y < k + 1 && all_neighbors@[y] == n) && occ0[n as int] == 255,
            )) by {
                assert forall|n: u32| (exists|y: int| 0 <= y < k + 1 && all_neighbors@[y] == n) && occ0[n as int] == 255
                    implies onlyocc@.contains(n) by {
                    let y = choose|y: int| 0 <= y < k + 1 && all_neighbors@[y] == n;
                    if y < k {
                    } else {
                        assert(n == neighbor);
                    }
                }
            }
        }
        k = k + 1;
    }
    proof {
        assert forall|i: int| 0 <= i < atom_pos@.len() implies #[trigger] atom_pos@[i].occ == coated_occ(
            g,
            atom_names@,
            occupied,
            occ0,
            coat_atom@,
            i,
        ) by {
            if exists|y: int| 0 <= y < all_neighbors@.len() && all_neighbors@[y] as int == i {
                let y = choose|y: int| 0 <= y < all_neighbors@.len() && all_neighbors@[y] as int == i;
                assert(all_neighbors@.contains(all_neighbors@[y]));
            }
            if 0 <= i <= u32::MAX && targets.contains(i as u32) {
                assert(all_neighbors@.contains(i as u32));
                let y = choose|y: int| 0 <= y < all_neighbors@.len() && all_neighbors@[y] == i as u32;
                assert(all_neighbors@[y] as int == i);
            }
        }
        assert(onlyocc@ =~= coated_sites(g, occupied, occ0)) by {
            assert forall|n: u32| targets.contains(n) && occ0[n as int] == 255 implies onlyocc@.contains(n) by {
                assert(all_neighbors@.contains(n));
                let y = choose|y: int| 0 <= y < all_neighbors@.len() && all_neighbors@[y] == n;
            }
            assert forall|n: u32| (exists|y: int| 0 <= y < all_neighbors@.len() && all_neighbors@[y] == n)
                implies targets.contains(n) by {
                let y = choose|y: int| 0 <= y < all_neighbors@.len() && all_neighbors@[y] == n;
                assert(all_neighbors@.contains(n));
            }
        }
    }
}

/// A site takes the code of the last atom that covers it: 100 when that
/// atom is of the support metal "Al", the code the table holds for the
/// atom's element otherwise.
pub proof fn lemma_deposit_last_atom_wins(
    names: Map<String, u8>,
    atoms: Seq<(String, Vec<usize>)>,
    before: u8,
    site: usize,
    j: int,
)
    requires
        0 <= j < atoms.len(),
        atoms[j].1@.contains(site),
        forall|l: int| j < l < atoms.len() ==> !(#[trigger] atoms[l]).1@.contains(site),
    ensures
        deposited_occ(names, atoms, before, site) == (if atoms[j].0@ == seq!['A', 'l'] {
            100u8
        } else {
            name_code(names, atoms[j].0@)
        }),
    decreases atoms.len(),
{
    if j < atoms.len() - 1 {
        let prev = atoms.drop_last();
        assert(!atoms[atoms.len() - 1].1@.contains(site));
        assert forall|l: int| j < l < prev.len() implies !(#[trigger] prev[l]).1@.contains(site) by {
            assert(prev[l] == atoms[l]);
        }
        assert(prev[j] == atoms[j]);
        lemma_deposit_last_atom_wins(names, prev, before, site, j);
    }
}

/// A site that no atom covers keeps its code.
pub proof fn lemma_deposit_uncovered_unchanged(
    names: Map<String, u8>,
    atoms: Seq<(String, Vec<usize>)>,
    before: u8,
    site: usize,
)
    requires
        forall|l: int| 0 <= l < atoms.len() ==> !(#[trigger] atoms[l]).1@.contains(site),
    ensures
        deposited_occ(names, atoms, before, site) == before,
    decreases atoms.len(),
{
    if atoms.len() > 0 {
        let prev = atoms.drop_last();
        assert(!atoms[atoms.len() - 1].1@.contains(site));
        assert forall|l: int| 0 <= l < prev.len() implies !(#[trigger] prev[l]).1@.contains(site) by {
            assert(prev[l] == atoms[l]);
        }
        lemma_deposit_uncovered_unchanged(names, prev, before, site);
    }
}

/// The occupied sites are exactly those covered by an atom whose name is not
/// "Al".
pub proof fn lemma_deposited_sites_exact(atoms: Seq<(String, Vec<usize>)>)
    ensures
        forall|j: int, i: usize|
            0 <= j < atoms.len() && #[trigger] atoms[j].1@.contains(i) && atoms[j].0@ != seq!['A', 'l']
                ==> deposited_sites(atoms).contains(i as u32),
        forall|v: u32|
            #[trigger] deposited_sites(atoms).contains(v) ==> exists|j: int, i: usize|
                0 <= j < atoms.len() && #[trigger] atoms[j].1@.contains(i) && atoms[j].0@ != seq![
                    'A',
                    'l',
                ] && i as u32 == v,
{
    assert forall|j: int, i: usize|
        0 <= j < atoms.len() && #[trigger] atoms[j].1@.contains(i) && atoms[j].0@ != seq!['A', 'l']
            implies deposited_sites(atoms).contains(i as u32) by {
        assert(!is_support_metal(atoms[j].0@));
    }
    assert forall|v: u32| #[trigger] deposited_sites(atoms).contains(v) implies exists|j: int, i: usize|
        0 <= j < atoms.len() && #[trigger] atoms[j].1@.contains(i) && atoms[j].0@ != seq!['A', 'l']
            && i as u32 == v by {
        let (j, i) = choose|j: int, i: usize|
            0 <= j < atoms.len() && #[trigger] atoms[j].1@.contains(i) && !is_support_metal(
                atoms[j].0@,
            ) && i as u32 == v;
        assert(atoms[j].0@ != seq!['A', 'l']);
    }
}

/// The codes of the sites after the atoms were placed.
pub open spec fn deposited_codes(
    names: Map<String, u8>,
    atoms: Seq<(String, Vec<usize>)>,
    atom_pos: Seq<AtomPosition>,
) -> Seq<u8> {
    Seq::new(atom_pos.len(), |i: int| deposited_occ(names, atoms, atom_pos[i].occ, i as usize))
}

/// Whether every atom can be placed on a lattice of `nsites` sites.
fn atoms_check(atoms: &Vec<(String, Vec<usize>)>, atom_names: &HashMap<String, u8>, nsites: usize) -> (ok: bool)
    ensures
        ok == atoms_placeable(atom_names@, atoms@, nsites as int),
{
    let supp_metal: String = "Al".to_owned();
    proof {
        reveal_strlit("Al");
    }
    let mut a: usize = 0;
    while a < atoms.len()
        invariant
            0 <= a <= atoms@.len(),
            supp_metal@ == seq!['A', 'l'],
            forall|j: int| 0 <= j < a ==> atom_placeable(atom_names@, #[trigger] atoms@[j], nsites as int),
        decreases atoms.len() - a,
    {
        let name: &String = &atoms[a].0;
        let covered: &Vec<usize> = &atoms[a].1;
        let mut k: usize = 0;
        while k < covered.len()
            invariant
                0 <= k <= covered@.len(),
                a < atoms@.len(),
                covered == atoms@[a as int].1,
                forall|x: int| 0 <= x < k ==> #[trigger] covered@[x] < nsites,
            decreases covered.len() - k,
        {
            if covered[k] >= nsites {
                proof {
                    assert(covered@.contains(covered@[k as int]));
                    assert(!atom_placeable(atom_names@, atoms@[a as int], nsites as int));
                }
                return false;
            }
            k = k + 1;
        }
        if covered.len() > 0 && !(*name == supp_metal) {
            if atom_code(atom_names, name).is_none() {
                proof {
                    assert(!atom_placeable(atom_names@, atoms@[a as int], nsites as int));
                }
                return false;
            }
        }
        proof {
            assert forall|i: usize| #[trigger] covered@.contains(i) implies i < nsites by {
                let x = choose|x: int| 0 <= x < covered@.len() && covered@[x] == i;
            }
            assert(atom_placeable(atom_names@, atoms@[a as int], nsites as int));
        }
        a = a + 1;
    }
    true
}

/// Whether coating can proceed from the occupied sites `onlyocc` with the
/// codes of `atom_pos`.
fn coat_check(
    atom_pos: &Vec<AtomPosition>,
    onlyocc: &HashSet<u32, FnvBuildHasher>,
    coat_atom: &String,
    atom_names: &HashMap<String, u8>,
    nn: &HashMap<u32, [u32; 12], FnvBuildHasher>,
) -> (ok: bool)
    ensures
        ok == coat_ready(nn@, atom_names@, onlyocc@, occ_codes(atom_pos@), coat_atom@),
{
    let ghost g = nn@;
    let ghost occupied = onlyocc@;
    let ghost occ = occ_codes(atom_pos@);
    let items = site_set_items(onlyocc);
    let mut need: bool = false;
    let ghost mut done: Set<u32> = Set::empty();
    let mut a: usize = 0;
    while a < items.len()
        invariant
            0 <= a <= items@.len(),
            g == nn@,
            occupied == onlyocc@,
            occ == occ_codes(atom_pos@),
            occ.len() == atom_pos@.len(),
            forall|x: u32| occupied.contains(x) <==> items@.contains(x),
            forall|x: u32| done.contains(x) <==> exists|y: int| 0 <= y < a && items@[y] == x,
            forall|x: u32| #[trigger] done.contains(x) ==> g.contains_key(x),
            forall|n: u32| #[trigger] touches(g, done, n) ==> n < occ.len(),
            need == exists|n: u32| #[trigger] touches(g, done, n) && occ[n as int] == 255,
        decreases items.len() - a,
    {
        let atom: u32 = items[a];
        assert(occupied.contains(atom));
        let neighbors: [u32; 12] = match site_map_get(nn, atom) {
            Some(neighbors) => neighbors,
            None => {
                proof {
                    assert(!coat_ready(g, atom_names@, occupied, occ, coat_atom@));
                }
                return false;
            },
        };
        let ghost nb = neighbors@;
        let ghost need0 = need;
        let mut j: usize = 0;
        while j < 12
            invariant
                0 <= j <= 12,
                nb == neighbors@,
                g == nn@,
                g.contains_key(atom),
                g[atom] == neighbors,
                occupied.contains(atom),
                occupied == onlyocc@,
                occ == occ_codes(atom_pos@),
                occ.len() == atom_pos@.len(),
                forall|x: int| 0 <= x < j ==> #[trigger] nb[x] < occ.len(),
                need == (need0 || exists|x: int| 0 <= x < j && occ[#[trigger] nb[x] as int] == 255),
            decreases 12 - j,
        {
            let n: u32 = neighbors[j];
            if n as usize >= atom_pos.len() {
                proof {
                    assert(adjacent(g, atom, n)) by {
                        assert(nb[j as int] == n);
                    }
                    assert(occupied.contains(atom));
                    assert(coat_sites(g, occupied).contains(n));
                    assert(!(n < occ.len()));
                    assert(!coat_ready(g, atom_names@, occupied, occ, coat_atom@));
                }
                return false;
            }
            if atom_pos[n as usize].occ == 255 {
                need = true;
            }
            proof {
                assert(nb[j as int] == n);
                if atom_pos@[n as int].occ == 255 {
                    assert(occ[nb[j as int] as int] == 255);
                }
            }
            j = j + 1;
        }
        proof {
            let done1 = done.insert(atom);
            assert forall|n: u32| #[trigger] touches(g, done1, n) <==> (touches(g, done, n) || nb.contains(n)) by {
                if touches(g, done1, n) {
                    let s = choose|s: u32| #[trigger] done1.contains(s) && adjacent(g, s, n);
                    if s != atom {
                        assert(done.contains(s));
                    }
                }
                if nb.contains(n) {
                    assert(done1.contains(atom) && adjacent(g, atom, n));
                }
                if touches(g, done, n) {
                    let s = choose|s: u32| #[trigger] done.contains(s) && adjacent(g, s, n);
                    assert(done1.contains(s));
                }
            }
            assert forall|n: u32| #[trigger] touches(g, done1, n) implies n < occ.len() by {
                if !touches(g, done, n) {
                    let x = choose|x: int| 0 <= x < nb.len() && nb[x] == n;
                }
            }
            assert(need == exists|n: u32| #[trigger] touches(g, done1, n) && occ[n as int] == 255) by {
                if need {
                    if need0 {
                        let n = choose|n: u32| #[trigger] touches(g, done, n) && occ[n as int] == 255;
                        assert(touches(g, done1, n));
                    } else {
                        let x = choose|x: int| 0 <= x < 12 && occ[#[trigger] nb[x] as int] == 255;
                        assert(nb.contains(nb[x]));
                        assert(touches(g, done1, nb[x]));
                    }
                }
                if exists|n: u32| #[trigger] touches(g, done1, n) && occ[n as int] == 255 {
                    let n = choose|n: u32| #[trigger] touches(g, done1, n) && occ[n as int] == 255;
                    if !touches(g, done, n) {
                        let x = choose|x: int| 0 <= x < nb.len() && nb[x] == n;
                        assert(occ[nb[x] as int] == 255);
                    }
                }
            }
            assert forall|x: u32| done1.contains(x) <==> exists|y: int| 0 <= y < a + 1 && items@[y] == x by {
                if x == atom {
                    assert(items@[a as int] == x);
                }
                if exists|y: int| 0 <= y < a + 1 && items@[y] == x {
                    let y = choose|y: int| 0 <= y < a + 1 && items@[y] == x;
                    if y < a {
                        assert(done.contains(x));
                    }
                }
            }
            done = done1;
        }
        a = a + 1;
    }
    proof {
        assert(done =~= occupied) by {
            assert forall|x: u32| occupied.contains(x) implies done.contains(x) by {
                assert(items@.contains(x));
                let y = choose|y: int| 0 <= y < items@.len() && items@[y] == x;
            }
        }
        assert(coat_sites(g, occupied) =~= Set::new(|n: u32| touches(g, done, n)));
    }
    if need && atom_code(atom_names, coat_atom).is_none() {
        proof {
            let n = choose|n: u32| #[trigger] touches(g, done, n) && occ[n as int] == 255;
            assert(coat_sites(g, occupied).contains(n));
        }
        return false;
    }
    true
}

/// Places the atoms of a sample onto the lattice and returns the occupied
/// sites.
///
/// `atoms` lists, in the sample's order, each atom's element name and the
/// lattice sites that lie within bonding distance of it. Each such site
/// takes the code of the atom's element from `atom_names` (code 100 for the
/// support metal "Al"), a later atom overwriting an earlier one; every site
/// covered by an atom other than the support metal is occupied. With a
/// `coating` element, every empty (code 255) neighbor of an occupied site
/// then takes the coating element's code and becomes occupied too.
pub fn occ_onlyocc_from_xyz(
    atom_pos: &mut Vec<AtomPosition>,
    atoms: &Vec<(String, Vec<usize>)>,
    atom_names: &HashMap<String, u8>,
    coating: Option<String>,
    nn: &HashMap<u32, [u32; 12], FnvBuildHasher>,
) -> (onlyocc: HashSet<u32, FnvBuildHasher>)
    requires
        atoms_placeable(atom_names@, atoms@, old(atom_pos)@.len() as int),
        coating matches Some(c) ==> coat_ready(
            nn@,
            atom_names@,
            deposited_sites(atoms@),
            deposited_codes(atom_names@, atoms@, old(atom_pos)@),
            c@,
        ),
    ensures
        final(atom_pos)@.len() == old(atom_pos)@.len(),
        forall|i: int|
            0 <= i < final(atom_pos)@.len() ==> same_but_occ(
                #[trigger] final(atom_pos)@[i],
                old(atom_pos)@[i],
            ) && final(atom_pos)@[i].occ == (match coating {
                Some(c) => coated_occ(
                    nn@,
                    atom_names@,
                    deposited_sites(atoms@),
                    deposited_codes(atom_names@, atoms@, old(atom_pos)@),
                    c@,
                    i,
                ),
                None => deposited_codes(atom_names@, atoms@, old(atom_pos)@)[i],
            }),
        onlyocc@ == (match coating {
            Some(c) => coated_sites(
                nn@,
                deposited_sites(atoms@),
                deposited_codes(atom_names@, atoms@, old(atom_pos)@),
            ),
            None => deposited_sites(atoms@),
        }),
        forall|j: int, i: usize|
            0 <= j < atoms@.len() && #[trigger] atoms@[j].1@.contains(i) && atoms@[j].0@ != seq![
                'A',
                'l',
            ] ==> onlyocc@.contains(i as u32),
        coating is None ==> forall|j: int, i: usize|
            0 <= j < atoms@.len() && #[trigger] atoms@[j].1@.contains(i) && (forall|l: int|
                j < l < atoms@.len() ==> !(#[trigger] atoms@[l]).1@.contains(i))
                ==> final(atom_pos)@[i as int].occ == (if atoms@[j].0@ == seq!['A', 'l'] {
                100u8
            } else {
                name_code(atom_names@, atoms@[j].0@)
            }),
{
    match try_occ_onlyocc_from_xyz(atom_pos, atoms, atom_names, coating, nn) {
        Some(onlyocc) => onlyocc,
        None => site_set_new(),
    }
}

/// `occ_onlyocc_from_xyz`, for inputs that may not meet its conditions:
/// `None` exactly when an atom cannot be placed or coating cannot proceed.
/// When the atoms cannot be placed, `atom_pos` is left as it was; when only
/// coating cannot proceed, it holds the codes after placing the atoms.
pub fn try_occ_onlyocc_from_xyz(
    atom_pos: &mut Vec<AtomPosition>,
    atoms: &Vec<(String, Vec<usize>)>,
    atom_names: &HashMap<String, u8>,
    coating: Option<String>,
    nn: &HashMap<u32, [u32; 12], FnvBuildHasher>,
) -> (r: Option<HashSet<u32, FnvBuildHasher>>)
    ensures
        r is Some <==> atoms_placeable(atom_names@, atoms@, old(atom_pos)@.len() as int) && (
        coating matches Some(c) ==> coat_ready(
            nn@,
            atom_names@,
            deposited_sites(atoms@),
            deposited_codes(atom_names@, atoms@, old(atom_pos)@),
            c@,
        )),
        final(atom_pos)@.len() == old(atom_pos)@.len(),
        !atoms_placeable(atom_names@, atoms@, old(atom_pos)@.len() as int) ==> final(atom_pos)@
            == old(atom_pos)@,
        atoms_placeable(atom_names@, atoms@, old(atom_pos)@.len() as int) && r is None ==> forall|
            i: int,
        |
            0 <= i < final(atom_pos)@.len() ==> same_but_occ(
                #[trigger] final(atom_pos)@[i],
                old(atom_pos)@[i],
            ) && final(atom_pos)@[i].occ == deposited_codes(atom_names@, atoms@, old(atom_pos)@)[i],
        r is Some ==> forall|i: int|
            0 <= i < final(atom_pos)@.len() ==> same_but_occ(
                #[trigger] final(atom_pos)@[i],
                old(atom_pos)@[i],
            ) && final(atom_pos)@[i].occ == (match coating {
                Some(c) => coated_occ(
                    nn@,
                    atom_names@,
                    deposited_sites(atoms@),
                    deposited_codes(atom_names@, atoms@, old(atom_pos)@),
                    c@,
                    i,
                ),
                None => deposited_codes(atom_names@, atoms@, old(atom_pos)@)[i],
            }),
        r matches Some(onlyocc) ==> onlyocc@ == (match coating {
            Some(c) => coated_sites(
                nn@,
                deposited_sites(atoms@),
                deposited_codes(atom_names@, atoms@, old(atom_pos)@),
            ),
            None => deposited_sites(atoms@),
        }),
        r matches Some(onlyocc) ==> forall|j: int, i: usize|
            0 <= j < atoms@.len() && #[trigger] atoms@[j].1@.contains(i) && atoms@[j].0@ != seq![
                'A',
                'l',
            ] ==> onlyocc@.contains(i as u32),
        r is Some && coating is None ==> forall|j: int, i: usize|
            0 <= j < atoms@.len() && #[trigger] atoms@[j].1@.contains(i) && (forall|l: int|
                j < l < atoms@.len() ==> !(#[trigger] atoms@[l]).1@.contains(i))
                ==> final(atom_pos)@[i as int].occ == (if atoms@[j].0@ == seq!['A', 'l'] {
                100u8
            } else {
                name_code(atom_names@, atoms@[j].0@)
            }),
{
    if !atoms_check(atoms, atom_names, atom_pos.len()) {
        return None;
    }
    let ghost start = atom_pos@;
    let mut onlyocc = deposit_atoms(atom_pos, atoms, atom_names);
    proof {
        assert(occ_codes(atom_pos@) =~= deposited_codes(atom_names@, atoms@, start));
    }
    proof {
        lemma_deposited_sites_exact(atoms@);
        assert forall|j: int, i: usize|
            0 <= j < atoms@.len() && #[trigger] atoms@[j].1@.contains(i) && (forall|l: int|
                j < l < atoms@.len() ==> !(#[trigger] atoms@[l]).1@.contains(i)) implies atom_pos@[
                i as int].occ == (if atoms@[j].0@ == seq!['A', 'l'] {
                100u8
            } else {
                name_code(atom_names@, atoms@[j].0@)
            }) by {
            assert(atom_placeable(atom_names@, atoms@[j], start.len() as int));
            lemma_deposit_last_atom_wins(atom_names@, atoms@, start[i as int].occ, i, j);
        }
    }
    let ghost deposited = onlyocc@;
    if let Some(coat_atom) = coating {
        if !coat_check(atom_pos, &onlyocc, &coat_atom, atom_names, nn) {
            return None;
        }
        coat_cluster(atom_pos, &mut onlyocc, &coat_atom, atom_names, nn);
    }
    proof {
        assert(deposited.subset_of(onlyocc@));
    }
    Some(onlyocc)
}

/// Coating changes only empty sites, keeps every occupied site occupied and
/// leaves no empty neighbor of the cluster uncoated.
pub proof fn lemma_coating_only_fills_empty_sites(
    nn: Map<u32, [u32; 12]>,
    names: Map<String, u8>,
    occupied: Set<u32>,
    occ: Seq<u8>,
    coat: Seq<char>,
)
    ensures
        forall|i: int|
            0 <= i < occ.len() && occ[i] != 255 ==> #[trigger] coated_occ(
                nn,
                names,
                occupied,
                occ,
                coat,
                i,
            ) == occ[i],
        occupied.subset_of(coated_sites(nn, occupied, occ)),
        forall|n: u32|
            #[trigger] coat_sites(nn, occupied).contains(n) && n < occ.len() && occ[n as int] == 255
                ==> coated_sites(nn, occupied, occ).contains(n) && coated_occ(
                nn,
                names,
                occupied,
                occ,
                coat,
                n as int,
            ) == name_code(names, coat),
        forall|i: int|
            0 <= i < occ.len() && !(0 <= i <= u32::MAX && coat_sites(nn, occupied).contains(i as u32))
                ==> #[trigger] coated_occ(nn, names, occupied, occ, coat, i) == occ[i],
        forall|n: u32|
            #[trigger] coated_sites(nn, occupied, occ).contains(n) ==> occupied.contains(n) || (coat_sites(
                nn,
                occupied,
            ).contains(n) && occ[n as int] == 255),
{
}

/// The sites that coating may fill are exactly the entries of the neighbor
/// lists of the occupied sites.
pub proof fn lemma_coat_sites_from_lists(nn: Map<u32, [u32; 12]>, occupied: Set<u32>)
    ensures
        forall|a: u32, k: int|
            occupied.contains(a) && nn.contains_key(a) && 0 <= k < 12 ==> coat_sites(nn, occupied).contains(
                #[trigger] nn[a][k],
            ),
        forall|n: u32|
            #[trigger] coat_sites(nn, occupied).contains(n) ==> exists|a: u32, k: int|
                occupied.contains(a) && nn.contains_key(a) && 0 <= k < 12 && #[trigger] nn[a][k] == n,
{
    assert forall|a: u32, k: int| occupied.contains(a) && nn.contains_key(a) && 0 <= k < 12 implies coat_sites(
        nn,
        occupied,
    ).contains(#[trigger] nn[a][k]) by {
        lemma_adjacent_is_listed(nn, a, nn[a][k]);
        assert(touches(nn, occupied, nn[a][k]));
    }
    assert forall|n: u32| #[trigger] coat_sites(nn, occupied).contains(n) implies exists|a: u32, k: int|
        occupied.contains(a) && nn.contains_key(a) && 0 <= k < 12 && #[trigger] nn[a][k] == n by {
        let a = choose|a: u32| #[trigger] occupied.contains(a) && adjacent(nn, a, n);
        lemma_adjacent_is_listed(nn, a, n);
        let k = choose|k: int| 0 <= k < 12 && #[trigger] nn[a][k] == n;
        assert(occupied.contains(a) && nn.contains_key(a) && 0 <= k < 12 && nn[a][k] == n);
    }
}

/// Every token reads as a `u32`.
pub open spec fn all_parse(toks: Seq<Seq<char>>) -> bool {
    forall|k: int| 0 <= k < toks.len() ==> (#[trigger] parse_u32(toks[k])) is Some
}

/// The number a token reads as.
pub open spec fn token_value(tok: Seq<char>) -> u32 {
    match parse_u32(tok) {
        Some(v) => v,
        None => 0,
    }
}

/// A line of a neighbor file: a site followed by at most 12 neighbors, all
/// unsigned decimal numbers separated by whitespace.
pub open spec fn nn_line_parses(line: Seq<char>) -> bool {
    1 <= tokens(line).len() <= 13 && all_parse(tokens(line))
}

/// The site a line is about: its first number.
pub open spec fn nn_line_site(line: Seq<char>) -> u32 {
    token_value(tokens(line)[0])
}

/// The neighbors a line lists, padded with 0 to 12 entries.
pub open spec fn nn_line_neighbors(line: Seq<char>) -> Seq<u32> {
    Seq::new(
        12,
        |k: int|
            if k + 1 < tokens(line).len() {
                token_value(tokens(line)[k + 1])
            } else {
                0
            },
    )
}

/// The neighbor table of the lines, each line's entry replacing any earlier
/// one for the same site.
pub open spec fn nn_table(lines: Seq<Seq<char>>) -> Map<u32, Seq<u32>>
    decreases lines.len(),
{
    if lines.len() == 0 {
        Map::empty()
    } else {
        nn_table(lines.drop_last()).insert(
            nn_line_site(lines.last()),
            nn_line_neighbors(lines.last()),
        )
    }
}

/// The table has an entry exactly for the sites that some line is about.
pub proof fn lemma_nn_table_sites(lines: Seq<Seq<char>>)
    ensures
        forall|k: u32|
            nn_table(lines).contains_key(k) <==> exists|i: int|
                0 <= i < lines.len() && #[trigger] nn_line_site(lines[i]) == k,
    decreases lines.len(),
{
    if lines.len() > 0 {
        let prev = lines.drop_last();
        lemma_nn_table_sites(prev);
        assert forall|k: u32|
            nn_table(lines).contains_key(k) <==> exists|i: int|
                0 <= i < lines.len() && #[trigger] nn_line_site(lines[i]) == k by {
            if nn_table(lines).contains_key(k) {
                if k == nn_line_site(lines.last()) {
                    assert(nn_line_site(lines[lines.len() - 1]) == k);
                } else {
                    assert(nn_table(prev).contains_key(k));
                    let i = choose|i: int| 0 <= i < prev.len() && #[trigger] nn_line_site(prev[i]) == k;
                    assert(lines[i] == prev[i]);
                    assert(nn_line_site(lines[i]) == k);
                }
            }
            if exists|i: int| 0 <= i < lines.len() && #[trigger] nn_line_site(lines[i]) == k {
                let i = choose|i: int| 0 <= i < lines.len() && #[trigger] nn_line_site(lines[i]) == k;
                if i < lines.len() - 1 {
                    assert(prev[i] == lines[i]);
                    assert(nn_line_site(prev[i]) == k);
                    assert(nn_table(prev).contains_key(k));
                }
            }
        }
    }
}

/// A site's entry holds the neighbors of the last line about it.
pub proof fn lemma_nn_table_last_line_wins(lines: Seq<Seq<char>>, i: int)
    requires
        0 <= i < lines.len(),
        forall|j: int| i < j < lines.len() ==> #[trigger] nn_line_site(lines[j]) != nn_line_site(lines[i]),
    ensures
        nn_table(lines).contains_key(nn_line_site(lines[i])),
        nn_table(lines)[nn_line_site(lines[i])] == nn_line_neighbors(lines[i]),
    decreases lines.len(),
{
    if i < lines.len() - 1 {
        let prev = lines.drop_last();
        assert(prev[i] == lines[i]);
        assert forall|j: int| i < j < prev.len() implies #[trigger] nn_line_site(prev[j]) != nn_line_site(prev[i]) by {
            assert(prev[j] == lines[j]);
        }
        lemma_nn_table_last_line_wins(prev, i);
        assert(nn_line_site(lines[lines.len() - 1]) != nn_line_site(lines[i]));
    }
}

/// Reads one line of a neighbor file: its site and its neighbors, the
/// missing ones 0; `None` when the line is not of that form.
pub fn parse_nn_line(line: &str) -> (r: Option<(u32, [u32; 12])>)
    ensures
        r is Some <==> nn_line_parses(line@),
        r matches Some(entry) ==> entry.0 == nn_line_site(line@) && entry.1@ == nn_line_neighbors(
            line@,
        ),
{
    let cs = text_chars(line);
    let n: usize = cs.len();
    let mut i: usize = 0;
    let mut count: usize = 0;
    let mut site: u32 = 0;
    let mut neighbors: [u32; 12] = [0u32; 12];
    let ghost mut done: Seq<Seq<char>> = seq![];
    proof {
        assert(cs@.skip(0) =~= cs@);
    }
    while i < n
        invariant
            0 <= i <= n,
            n == cs@.len(),
            cs@ == line@,
            tokens(cs@) == done + tokens(cs@.skip(i as int)),
            done.len() == count,
            count <= 13,
            all_parse(done),
            count >= 1 ==> site == token_value(done[0]),
            forall|k: int|
                0 <= k < 12 ==> #[trigger] neighbors@[k] == (if k + 1 < count {
                    token_value(done[k + 1])
                } else {
                    0
                }),
        decreases n - i,
    {
        if is_white_char(cs[i]) {
            proof {
                lemma_tokens_skip_white(cs@, i as int);
            }
            i = i + 1;
        } else {
            let mut j: usize = i + 1;
            while j < n && !is_white_char(cs[j])
                invariant
                    i < j <= n,
                    n == cs@.len(),
                    forall|k: int| i <= k < j ==> !is_white(#[trigger] cs@[k]),
                decreases n - j,
            {
                j = j + 1;
            }
            let ghost tok = cs@.subrange(i as int, j as int);
            proof {
                lemma_tokens_skip_token(cs@, i as int, j as int);
                assert(tokens(cs@) =~= done.push(tok) + tokens(cs@.skip(j as int)));
            }
            if count >= 13 {
                proof {
                    assert(tokens(cs@).len() >= 14);
                }
                return None;
            }
            let v: u32 = match parse_u32_chars(&cs, i, j) {
                None => {
                    proof {
                        assert(tokens(cs@)[count as int] == tok);
                        assert(!all_parse(tokens(cs@)));
                    }
                    return None;
                },
                Some(v) => v,
            };
            if count == 0 {
                site = v;
            } else {
                neighbors[count - 1] = v;
            }
            proof {
                let done1 = done.push(tok);
                assert forall|k: int| 0 <= k < done1.len() implies (#[trigger] parse_u32(done1[k])) is Some by {
                    if k < done.len() {
                        assert(done1[k] == done[k]);
                    }
                }
                assert(token_value(done1[count as int]) == v);
                done = done1;
            }
            count = count + 1;
            i = j;
        }
    }
    proof {
        assert(cs@.skip(n as int) =~= Seq::<char>::empty());
        assert(tokens(cs@) =~= done);
    }
    if count == 0 {
        return None;
    }
    proof {
        assert(neighbors@ =~= nn_line_neighbors(line@));
    }
    Some((site, neighbors))
}

/// Reads a neighbor file given as its lines: for every line, its site maps
/// to its neighbors, a later line for the same site replacing an earlier
/// one. Every line must be of the form that `parse_nn_line` reads.
pub fn read_nn(lines: &Vec<String>) -> (nn: HashMap<u32, [u32; 12], FnvBuildHasher>)
    requires
        forall|i: int| 0 <= i < lines@.len() ==> nn_line_parses(#[trigger] lines@[i]@),
    ensures
        nn@.map_values(|a: [u32; 12]| a@) == nn_table(lines@.map_values(|l: String| l@)),
{
    match try_read_nn(lines) {
        Some(nn) => nn,
        None => site_map_with_capacity(0),
    }
}

/// `read_nn`, for lines that may be malformed: `None` exactly when some line
/// is not of the form that `parse_nn_line` reads.
pub fn try_read_nn(lines: &Vec<String>) -> (r: Option<HashMap<u32, [u32; 12], FnvBuildHasher>>)
    ensures
        r is Some <==> forall|i: int| 0 <= i < lines@.len() ==> nn_line_parses(#[trigger] lines@[i]@),
        r matches Some(nn) ==> nn@.map_values(|a: [u32; 12]| a@) == nn_table(
            lines@.map_values(|l: String| l@),
        ),
{
    let mut nn = site_map_with_capacity(5400);
    let ghost texts = lines@.map_values(|l: String| l@);
    let mut i: usize = 0;
    while i < lines.len()
        invariant
            0 <= i <= lines@.len(),
            texts == lines@.map_values(|l: String| l@),
            forall|k: int| 0 <= k < i ==> nn_line_parses(#[trigger] lines@[k]@),
            nn@.map_values(|a: [u32; 12]| a@) == nn_table(texts.take(i as int)),
        decreases lines.len() - i,
    {
        match parse_nn_line(lines[i].as_str()) {
            None => {
                return None;
            },
            Some((k, neighbors)) => {
                let ghost before = nn@;
                site_map_insert(&mut nn, k, neighbors);
                proof {
                    let t1 = texts.take(i + 1);
                    assert(t1.drop_last() =~= texts.take(i as int));
                    assert(t1.last() == lines@[i as int]@);
                    assert(nn@.map_values(|a: [u32; 12]| a@) =~= before.map_values(
                        |a: [u32; 12]| a@,
                    ).insert(k, neighbors@));
                }
            },
        }
        i = i + 1;
    }
    proof {
        assert(texts.take(lines@.len() as int) =~= texts);
    }
    Some(nn)
}

/// The positions of the entries of a snapshot that hold an atom (every code
/// but 255), in order.
pub open spec fn placed_indices(snapshot: Seq<u8>) -> Seq<usize>
    decreases snapshot.len(),
{
    if snapshot.len() == 0 {
        seq![]
    } else if snapshot.last() != 255 {
        placed_indices(snapshot.drop_last()).push((snapshot.len() - 1) as usize)
    } else {
        placed_indices(snapshot.drop_last())
    }
}

/// The positions listed for a snapshot are exactly its entries other than
/// 255, each once, in increasing order.
pub proof fn lemma_placed_indices_exact(snapshot: Seq<u8>)
    requires
        snapshot.len() <= usize::MAX,
    ensures
        forall|m: int|
            0 <= m < placed_indices(snapshot).len() ==> #[trigger] placed_indices(snapshot)[m]
                < snapshot.len() && snapshot[placed_indices(snapshot)[m] as int] != 255,
        forall|m1: int, m2: int|
            0 <= m1 < m2 < placed_indices(snapshot).len() ==> #[trigger] placed_indices(snapshot)[m1]
                < #[trigger] placed_indices(snapshot)[m2],
        forall|i: int|
            0 <= i < snapshot.len() && #[trigger] snapshot[i] != 255 ==> exists|m: int|
                0 <= m < placed_indices(snapshot).len() && #[trigger] placed_indices(snapshot)[m] == i,
    decreases snapshot.len(),
{
    if snapshot.len() > 0 {
        let prev = snapshot.drop_last();
        lemma_placed_indices_exact(prev);
        let pp = placed_indices(prev);
        let p = placed_indices(snapshot);
        let last = snapshot.len() - 1;
        assert forall|i: int| 0 <= i < prev.len() implies prev[i] == #[trigger] snapshot[i] by {}
        if snapshot.last() != 255 {
            assert(p == pp.push(last as usize));
            assert forall|i: int| 0 <= i < snapshot.len() && #[trigger] snapshot[i] != 255 implies exists|m: int|
                0 <= m < p.len() && #[trigger] p[m] == i by {
                if i == last {
                    assert(p[pp.len() as int] == i);
                } else {
                    assert(prev[i] != 255);
                    let m = choose|m: int| 0 <= m < pp.len() && #[trigger] pp[m] == i;
                    assert(p[m] == i);
                }
            }
            assert forall|m: int| 0 <= m < p.len() implies #[trigger] p[m] < snapshot.len()
                && snapshot[p[m] as int] != 255 by {
                if m < pp.len() {
                    assert(p[m] == pp[m]);
                }
            }
            assert forall|m1: int, m2: int| 0 <= m1 < m2 < p.len() implies #[trigger] p[m1] < #[trigger] p[m2] by {
                if m2 < pp.len() {
                    assert(p[m1] == pp[m1] && p[m2] == pp[m2]);
                } else {
                    assert(p[m1] == pp[m1]);
                    assert(pp[m1] < prev.len());
                }
            }
        } else {
            assert(p == pp);
            assert forall|i: int| 0 <= i < snapshot.len() && #[trigger] snapshot[i] != 255 implies exists|m: int|
                0 <= m < p.len() && #[trigger] p[m] == i by {
                assert(i != last);
                assert(prev[i] != 255);
            }
        }
    }
}

/// The first position of the snapshot whose code is neither 255 nor in the
/// table, if there is one.
pub open spec fn first_unknown_code(names: Map<String, u8>, snapshot: Seq<u8>) -> Option<int> {
    if exists|i: int| 0 <= i < snapshot.len() && snapshot[i] != 255 && !has_code(names, #[trigger] snapshot[i]) {
        Some(choose|i: int| 0 <= i < snapshot.len() && snapshot[i] != 255 && !has_code(names, #[trigger] snapshot[i])
            && forall|j: int| 0 <= j < i ==> snapshot[j] == 255 || has_code(names, #[trigger] snapshot[j]))
    } else {
        None
    }
}

/// The atoms of one frame to write: for every entry of the snapshot that
/// holds an atom (every code but 255), its position and a name whose code is
/// the entry's. Every such code must be in the table.
pub fn frame_atoms<'a>(snapshot: &Vec<u8>, atom_names: &'a HashMap<String, u8>) -> (atoms: Vec<
    (usize, &'a str),
>)
    requires
        first_unknown_code(atom_names@, snapshot@) is None,
    ensures
        atoms@.len() == placed_indices(snapshot@).len(),
        forall|m: int|
            0 <= m < atoms@.len() ==> (#[trigger] atoms@[m]).0 == placed_indices(snapshot@)[m]
                && exists|name: String|
                #[trigger] atom_names@.contains_key(name) && name@ == atoms@[m].1@
                    && atom_names@[name] == snapshot@[atoms@[m].0 as int],
        forall|m: int|
            0 <= m < atoms@.len() ==> (#[trigger] atoms@[m]).0 < snapshot@.len() && snapshot@[atoms@[m].0 as int]
                != 255,
        forall|m1: int, m2: int|
            0 <= m1 < m2 < atoms@.len() ==> (#[trigger] atoms@[m1]).0 < (#[trigger] atoms@[m2]).0,
        forall|i: int|
            0 <= i < snapshot@.len() && #[trigger] snapshot@[i] != 255 ==> exists|m: int|
                0 <= m < atoms@.len() && (#[trigger] atoms@[m]).0 == i,
{
    match try_frame_atoms(snapshot, atom_names) {
        Ok(atoms) => atoms,
        Err(_) => Vec::new(),
    }
}

/// `frame_atoms`, for snapshots that may hold a code no name has: `Err`
/// with the code of the first such entry exactly then.
pub fn try_frame_atoms<'a>(snapshot: &Vec<u8>, atom_names: &'a HashMap<String, u8>) -> (r: Result<
    Vec<(usize, &'a str)>,
    u8,
>)
    ensures
        r is Err <==> first_unknown_code(atom_names@, snapshot@) is Some,
        r matches Err(code) ==> code == snapshot@[first_unknown_code(atom_names@, snapshot@)->0],
        r matches Ok(atoms) ==> atoms@.len() == placed_indices(snapshot@).len(),
        r matches Ok(atoms) ==> forall|m: int|
            0 <= m < atoms@.len() ==> (#[trigger] atoms@[m]).0 == placed_indices(snapshot@)[m]
                && exists|name: String|
                #[trigger] atom_names@.contains_key(name) && name@ == atoms@[m].1@
                    && atom_names@[name] == snapshot@[atoms@[m].0 as int],
        r matches Ok(atoms) ==> forall|i: int|
            0 <= i < snapshot@.len() && #[trigger] snapshot@[i] != 255 ==> (exists|k: String| #[trigger] atom_names@.contains_key(k) && atom_names@[k] == snapshot@[i]),
        r matches Ok(atoms) ==> forall|m: int|
            0 <= m < atoms@.len() ==> (#[trigger] atoms@[m]).0 < snapshot@.len() && snapshot@[atoms@[m].0 as int]
                != 255,
        r matches Ok(atoms) ==> forall|m1: int, m2: int|
            0 <= m1 < m2 < atoms@.len() ==> (#[trigger] atoms@[m1]).0 < (#[trigger] atoms@[m2]).0,
        r is Ok ==> forall|i: int|
            0 <= i < snapshot@.len() && #[trigger] snapshot@[i] != 255 ==> exists|m: int|
                #![trigger r->Ok_0@[m]]
                0 <= m < r->Ok_0@.len() && r->Ok_0@[m].0 == i,
        r matches Err(code) ==> code != 255 && !(exists|k: String| #[trigger] atom_names@.contains_key(k) && atom_names@[k] == code) && exists|i: int|
            0 <= i < snapshot@.len() && #[trigger] snapshot@[i] == code && forall|j: int|
                0 <= j < i ==> #[trigger] snapshot@[j] == 255 || (exists|k: String| #[trigger] atom_names@.contains_key(k) && atom_names@[k] == snapshot@[j]),
{
    let mut atoms: Vec<(usize, &'a str)> = Vec::new();
    let mut i: usize = 0;
    while i < snapshot.len()
        invariant
            0 <= i <= snapshot@.len(),
            forall|j: int| 0 <= j < i ==> snapshot@[j] == 255 || has_code(atom_names@, #[trigger] snapshot@[j]),
            atoms@.len() == placed_indices(snapshot@.take(i as int)).len(),
            forall|m: int|
                0 <= m < atoms@.len() ==> (#[trigger] atoms@[m]).0 == placed_indices(snapshot@.take(i as int))[m]
                    && exists|name: String|
                    #[trigger] atom_names@.contains_key(name) && name@ == atoms@[m].1@
                        && atom_names@[name] == snapshot@[atoms@[m].0 as int],
            forall|m: int| 0 <= m < atoms@.len() ==> (#[trigger] atoms@[m]).0 < i,
            forall|j: int|
                0 <= j < i && #[trigger] snapshot@[j] != 255 ==> exists|m: int|
                    0 <= m < atoms@.len() && (#[trigger] atoms@[m]).0 == j,
        decreases snapshot.len() - i,
    {
        let atom: u8 = snapshot[i];
        let ghost t1 = snapshot@.take(i + 1);
        proof {
            assert(t1.drop_last() =~= snapshot@.take(i as int));
            assert(t1.last() == atom);
        }
        if atom != 255 {
            match find_key_for_value(atom_names, atom) {
                Some(name) => {
                    let ghost before = atoms@;
                    atoms.push((i, name));
                    proof {
                        assert forall|j: int|
                            0 <= j < i + 1 && #[trigger] snapshot@[j] != 255 implies exists|m: int|
                                0 <= m < atoms@.len() && (#[trigger] atoms@[m]).0 == j by {
                            if j == i {
                                assert(atoms@[before.len() as int].0 == j);
                            } else {
                                let m = choose|m: int| 0 <= m < before.len() && (#[trigger] before[m]).0 == j;
                                assert(atoms@[m] == before[m]);
                            }
                        }
                    }
                },
                None => {
                    proof {
                        let fu = first_unknown_code(atom_names@, snapshot@);
                        assert(0 <= i < snapshot@.len() && snapshot@[i as int] != 255 && !has_code(
                            atom_names@,
                            snapshot@[i as int],
                        ) && forall|j: int| 0 <= j < i ==> snapshot@[j] == 255 || has_code(atom_names@, #[trigger] snapshot@[j]));
                        let k = fu->0;
                        assert(forall|j: int| 0 <= j < k ==> snapshot@[j] == 255 || has_code(atom_names@, #[trigger] snapshot@[j]));
                        if k < i {
                            assert(snapshot@[k] == 255 || has_code(atom_names@, snapshot@[k]));
                        } else if k > i {
                            assert(snapshot@[i as int] == 255 || has_code(atom_names@, snapshot@[i as int]));
                        }
                    }
                    proof {
                        assert(0 <= i < snapshot@.len() && snapshot@[i as int] == atom);
                    }
                    return Err(atom);
                },
            }
        }
        i = i + 1;
    }
    proof {
        assert(snapshot@.take(snapshot@.len() as int) =~= snapshot@);
        assert(snapshot@.len() == snapshot.len());
        lemma_placed_indices_exact(snapshot@);
        assert forall|i: int| 0 <= i < snapshot@.len() && #[trigger] snapshot@[i] != 255 implies
            (exists|k: String| #[trigger] atom_names@.contains_key(k) && atom_names@[k] == snapshot@[i]) by {
            assert(has_code(atom_names@, snapshot@[i]));
        }
        let pl = placed_indices(snapshot@);
        assert forall|m: int| 0 <= m < atoms@.len() implies (#[trigger] atoms@[m]).0 < snapshot@.len()
            && snapshot@[atoms@[m].0 as int] != 255 by {
            assert(atoms@[m].0 == pl[m]);
        }
        let ghost res: Result<Vec<(usize, &'a str)>, u8> = Ok(atoms);
        assert forall|i: int| 0 <= i < snapshot@.len() && #[trigger] snapshot@[i] != 255 implies exists|m: int|
            #![trigger res->Ok_0@[m]]
            0 <= m < res->Ok_0@.len() && res->Ok_0@[m].0 == i by {
            let m = choose|m: int| 0 <= m < atoms@.len() && (#[trigger] atoms@[m]).0 == i;
            assert(res->Ok_0@[m] == atoms@[m]);
        }
        assert forall|m1: int, m2: int| 0 <= m1 < m2 < atoms@.len() implies (#[trigger] atoms@[m1]).0
            < (#[trigger] atoms@[m2]).0 by {
            assert(atoms@[m1].0 == pl[m1]);
            assert(atoms@[m2].0 == pl[m2]);
        }
        if exists|j: int| 0 <= j < snapshot@.len() && snapshot@[j] != 255 && !has_code(atom_names@, #[trigger] snapshot@[j]) {
            let j = choose|j: int| 0 <= j < snapshot@.len() && snapshot@[j] != 255 && !has_code(atom_names@, #[trigger] snapshot@[j]);
        }
    }
    Ok(atoms)
}

/// A snapshot that shows the codes of the sites of `sites` and leaves every
/// other site empty (code 255).
pub fn occ_snapshot(atom_pos: &Vec<AtomPosition>, sites: &HashSet<u32, FnvBuildHasher>) -> (snapshot: Vec<u8>)
    ensures
        snapshot@.len() == atom_pos@.len(),
        forall|i: int|
            0 <= i < snapshot@.len() ==> #[trigger] snapshot@[i] == (if sites@.contains(i as u32) {
                atom_pos@[i].occ
            } else {
                255
            }),
{
    let mut snapshot: Vec<u8> = Vec::new();
    let mut i: usize = 0;
    while i < atom_pos.len()
        invariant
            0 <= i <= atom_pos@.len(),
            snapshot@.len() == i,
            forall|k: int|
                0 <= k < i ==> #[trigger] snapshot@[k] == (if sites@.contains(k as u32) {
                    atom_pos@[k].occ
                } else {
                    255
                }),
        decreases atom_pos.len() - i,
    {
        if site_set_contains(sites, i as u32) {
            snapshot.push(atom_pos[i].occ);
        } else {
            snapshot.push(255);
        }
        i = i + 1;
    }
    snapshot
}

/// A snapshot of `len` sites that shows `mark` on the sites of `sites` and
/// leaves every other site empty (code 255).
pub fn mark_snapshot(len: usize, sites: &HashSet<u32, FnvBuildHasher>, mark: u8) -> (snapshot: Vec<u8>)
    ensures
        snapshot@.len() == len,
        forall|i: int|
            0 <= i < len ==> #[trigger] snapshot@[i] == (if sites@.contains(i as u32) {
                mark
            } else {
                255
            }),
{
    let mut snapshot: Vec<u8> = Vec::new();
    let mut i: usize = 0;
    while i < len
        invariant
            0 <= i <= len,
            snapshot@.len() == i,
            forall|k: int|
                0 <= k < i ==> #[trigger] snapshot@[k] == (if sites@.contains(k as u32) {
                    mark
                } else {
                    255
                }),
        decreases len - i,
    {
        if site_set_contains(sites, i as u32) {
            snapshot.push(mark);
        } else {
            snapshot.push(255);
        }
        i = i + 1;
    }
    snapshot
}

} // verus!
