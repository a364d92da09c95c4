//! The sites from which the search for the surface starts: the sites that
//! lie on the bounding box of the lattice.
//!
//! Coordinates are given as order keys: integers that compare (`<`, `==`)
//! exactly as the coordinates they stand for.

use crate::fnv_collections::site_set_insert;
use fnv::FnvBuildHasher;
use std::collections::HashSet;
use vstd::prelude::*;

verus! {

/// `v` is the smallest value of coordinate `k` over all sites.
pub open spec fn is_axis_min(xyz: Seq<[i64; 3]>, k: int, v: i64) -> bool {
    &&& exists|j: int| 0 <= j < xyz.len() && #[trigger] xyz[j][k] == v
    &&& forall|j: int| 0 <= j < xyz.len() ==> v <= #[trigger] xyz[j][k]
}

/// `v` is the largest value of coordinate `k` over all sites.
pub open spec fn is_axis_max(xyz: Seq<[i64; 3]>, k: int, v: i64) -> bool {
    &&& exists|j: int| 0 <= j < xyz.len() && #[trigger] xyz[j][k] == v
    &&& forall|j: int| 0 <= j < xyz.len() ==> #[trigger] xyz[j][k] <= v
}

/// Site `i` has, along axis `k`, the smallest or the largest coordinate of all sites.
pub open spec fn on_axis_bound(xyz: Seq<[i64; 3]>, i: int, k: int) -> bool {
    ||| forall|j: int| 0 <= j < xyz.len() ==> xyz[i][k] <= #[trigger] xyz[j][k]
    ||| forall|j: int| 0 <= j < xyz.len() ==> #[trigger] xyz[j][k] <= xyz[i][k]
}

/// Site `i` lies on a face of the bounding box of all sites.
pub open spec fn on_bounding_box(xyz: Seq<[i64; 3]>, i: int) -> bool {
    on_axis_bound(xyz, i, 0) || on_axis_bound(xyz, i, 1) || on_axis_bound(xyz, i, 2)
}

/// The indices (as `u32`) of the sites on the bounding box.
pub open spec fn start_sites(xyz: Seq<[i64; 3]>) -> Set<u32> {
    Set::new(|v: u32| exists|i: int| 0 <= i < xyz.len() && i as u32 == v && on_bounding_box(xyz, i))
}

/// A coordinate is on the bound along an axis exactly when it equals the
/// axis' smallest or largest value.
proof fn lemma_on_axis_bound_iff(xyz: Seq<[i64; 3]>, i: int, k: int, lo: i64, hi: i64)
    requires
        0 <= i < xyz.len(),
        is_axis_min(xyz, k, lo),
        is_axis_max(xyz, k, hi),
    ensures
        on_axis_bound(xyz, i, k) == (xyz[i][k] == lo || xyz[i][k] == hi),
{
    let a = choose|j: int| 0 <= j < xyz.len() && #[trigger] xyz[j][k] == lo;
    let b = choose|j: int| 0 <= j < xyz.len() && #[trigger] xyz[j][k] == hi;
    assert(lo <= xyz[i][k] <= hi);
    if forall|j: int| 0 <= j < xyz.len() ==> xyz[i][k] <= #[trigger] xyz[j][k] {
        assert(xyz[i][k] <= xyz[a][k]);
    }
    if forall|j: int| 0 <= j < xyz.len() ==> #[trigger] xyz[j][k] <= xyz[i][k] {
        assert(xyz[b][k] <= xyz[i][k]);
    }
}

/// The smallest and the largest value of coordinate `i` over all sites.
pub fn min_max_xyz(xyz: &[[i64; 3]], i: usize) -> (r: (i64, i64))
    requires
        xyz.len() > 0,
        i < 3,
    ensures
        is_axis_min(xyz@, i as int, r.0),
        is_axis_max(xyz@, i as int, r.1),
        forall|j: int| 0 <= j < xyz@.len() ==> r.0 <= #[trigger] xyz@[j][i as int] <= r.1,
        exists|j: int| 0 <= j < xyz@.len() && #[trigger] xyz@[j][i as int] == r.0,
        exists|j: int| 0 <= j < xyz@.len() && #[trigger] xyz@[j][i as int] == r.1,
{
    let mut min: i64 = xyz[0][i];
    let mut max: i64 = xyz[0][i];
    let mut j: usize = 1;
    while j < xyz.len()
        invariant
            1 <= j <= xyz.len(),
            i < 3,
            exists|m: int| 0 <= m < j && #[trigger] xyz@[m][i as int] == min,
            exists|m: int| 0 <= m < j && #[trigger] xyz@[m][i as int] == max,
            forall|m: int| 0 <= m < j ==> min <= #[trigger] xyz@[m][i as int] <= max,
        decreases xyz.len() - j,
    {
        let x: i64 = xyz[j][i];
        if x < min {
            min = x;
        }
        if x > max {
            max = x;
        }
        j = j + 1;
    }
    (min, max)
}

/// Inserts into `start_sites` the index of every site that lies on the
/// bounding box of all sites: a site whose coordinate along some axis is the
/// smallest or the largest of all sites.
pub fn get_start_positions(xyz: &[[i64; 3]], start_sites: &mut HashSet<u32, FnvBuildHasher>)
    requires
        xyz.len() > 0,
    ensures
        final(start_sites)@ == old(start_sites)@.union(self::start_sites(xyz@)),
        forall|i: int|
            0 <= i < xyz@.len() ==> ((forall|j: int| 0 <= j < xyz@.len() ==> xyz@[i][0] <= #[trigger] xyz@[j][0])
                || (forall|j: int| 0 <= j < xyz@.len() ==> #[trigger] xyz@[j][0] <= xyz@[i][0])
                || (forall|j: int| 0 <= j < xyz@.len() ==> xyz@[i][1] <= #[trigger] xyz@[j][1])
                || (forall|j: int| 0 <= j < xyz@.len() ==> #[trigger] xyz@[j][1] <= xyz@[i][1])
                || (forall|j: int| 0 <= j < xyz@.len() ==> xyz@[i][2] <= #[trigger] xyz@[j][2])
                || (forall|j: int| 0 <= j < xyz@.len() ==> #[trigger] xyz@[j][2] <= xyz@[i][2])
            ) ==> #[trigger] final(start_sites)@.contains(i as u32),
        xyz@.len() <= 0x1_0000_0000 ==> forall|i: int|
            0 <= i < xyz@.len() ==> (#[trigger] final(start_sites)@.contains(i as u32) ==> old(
                start_sites,
            )@.contains(i as u32) || ((forall|j: int| 0 <= j < xyz@.len() ==> xyz@[i][0] <= #[trigger] xyz@[j][0])
                || (forall|j: int| 0 <= j < xyz@.len() ==> #[trigger] xyz@[j][0] <= xyz@[i][0])
                || (forall|j: int| 0 <= j < xyz@.len() ==> xyz@[i][1] <= #[trigger] xyz@[j][1])
                || (forall|j: int| 0 <= j < xyz@.len() ==> #[trigger] xyz@[j][1] <= xyz@[i][1])
                || (forall|j: int| 0 <= j < xyz@.len() ==> xyz@[i][2] <= #[trigger] xyz@[j][2])
                || (forall|j: int| 0 <= j < xyz@.len() ==> #[trigger] xyz@[j][2] <= xyz@[i][2])
            )),
        forall|v: u32| #[trigger] final(start_sites)@.contains(v) ==> old(start_sites)@.contains(v) || v < xyz@.len(),
{
    proof {
        lemma_start_sites_are_coordinate_extremes(xyz@);
    }
    let min_max: [(i64, i64); 3] = [min_max_xyz(xyz, 0), min_max_xyz(xyz, 1), min_max_xyz(xyz, 2)];
    let mut grid_index: usize = 0;
    while grid_index < xyz.len()
        invariant
            0 <= grid_index <= xyz.len(),
            forall|k: int| 0 <= k < 3 ==> is_axis_min(xyz@, k, #[trigger] min_max[k].0),
            forall|k: int| 0 <= k < 3 ==> is_axis_max(xyz@, k, #[trigger] min_max[k].1),
            start_sites@ == old(start_sites)@.union(
                Set::new(
                    |v: u32|
                        exists|m: int|
                            0 <= m < grid_index && m as u32 == v && on_bounding_box(xyz@, m),
                ),
            ),
        decreases xyz.len() - grid_index,
    {
        let pos: [i64; 3] = xyz[grid_index];
        let mut found: bool = false;
        let mut k: usize = 0;
        while k < 3
            invariant
                0 <= k <= 3,
                grid_index < xyz.len(),
                pos == xyz@[grid_index as int],
                forall|kk: int| 0 <= kk < 3 ==> is_axis_min(xyz@, kk, #[trigger] min_max[kk].0),
                forall|kk: int| 0 <= kk < 3 ==> is_axis_max(xyz@, kk, #[trigger] min_max[kk].1),
                found == exists|kk: int| 0 <= kk < k && on_axis_bound(xyz@, grid_index as int, kk),
            decreases 3 - k,
        {
            let x: i64 = pos[k];
            proof {
                lemma_on_axis_bound_iff(
                    xyz@,
                    grid_index as int,
                    k as int,
                    min_max[k as int].0,
                    min_max[k as int].1,
                );
            }
            if min_max[k].0 == x || min_max[k].1 == x {
                found = true;
            }
            assert(found == exists|kk: int|
                0 <= kk < k + 1 && on_axis_bound(xyz@, grid_index as int, kk)) by {
                if on_axis_bound(xyz@, grid_index as int, k as int) {
                    assert(0 <= k < k + 1);
                }
            }
            k = k + 1;
        }
        assert(found == on_bounding_box(xyz@, grid_index as int));
        let ghost before = start_sites@;
        if found {
            site_set_insert(start_sites, grid_index as u32);
        }
        proof {
            let gi = grid_index as int;
            let prev = Set::new(
                |v: u32| exists|m: int| 0 <= m < gi && m as u32 == v && on_bounding_box(xyz@, m),
            );
            let next = Set::new(
                |v: u32| exists|m: int| 0 <= m < gi + 1 && m as u32 == v && on_bounding_box(xyz@, m),
            );
            assert forall|v: u32| next.contains(v) implies #[trigger] prev.contains(v) || (found
                && v == gi as u32) by {
                let m = choose|m: int| 0 <= m < gi + 1 && m as u32 == v && on_bounding_box(xyz@, m);
                if m < gi {
                    assert(prev.contains(v));
                }
            }
            assert forall|v: u32| prev.contains(v) implies #[trigger] next.contains(v) by {
                let m = choose|m: int| 0 <= m < gi && m as u32 == v && on_bounding_box(xyz@, m);
                assert(0 <= m < gi + 1 && m as u32 == v && on_bounding_box(xyz@, m));
            }
            if found {
                assert(0 <= gi < gi + 1 && gi as u32 == grid_index as u32 && on_bounding_box(
                    xyz@,
                    gi,
                ));
                assert(next.contains(grid_index as u32));
                assert(start_sites@ =~= old(start_sites)@.union(next));
            } else {
                assert(start_sites@ =~= old(start_sites)@.union(next));
            }
        }
        grid_index = grid_index + 1;
    }
    proof {
        assert(start_sites@ =~= old(start_sites)@.union(self::start_sites(xyz@)));
    }
}

/// A site among the first `n` whose coordinate `k` is the smallest among them.
proof fn lemma_axis_argmin(xyz: Seq<[i64; 3]>, k: int, n: int) -> (m: int)
    requires
        0 < n <= xyz.len(),
    ensures
        0 <= m < n,
        forall|j: int| 0 <= j < n ==> xyz[m][k] <= #[trigger] xyz[j][k],
    decreases n,
{
    if n == 1 {
        0
    } else {
        let m0 = lemma_axis_argmin(xyz, k, n - 1);
        if xyz[n - 1][k] < xyz[m0][k] {
            n - 1
        } else {
            m0
        }
    }
}

/// A lattice with at least one site has at least one start site.
pub proof fn lemma_start_sites_nonempty(xyz: Seq<[i64; 3]>)
    requires
        xyz.len() > 0,
    ensures
        !start_sites(xyz).is_empty(),
{
    let m = lemma_axis_argmin(xyz, 0, xyz.len() as int);
    assert(on_axis_bound(xyz, m, 0));
    assert(on_bounding_box(xyz, m));
    let v = m as u32;
    assert(0 <= m < xyz.len() && m as u32 == v && on_bounding_box(xyz, m));
    assert(start_sites(xyz).contains(v));
}

/// A site is a start site exactly when, along some axis, its coordinate is
/// the smallest or the largest coordinate of all sites along that axis.
pub proof fn lemma_start_sites_are_axis_extremes(xyz: Seq<[i64; 3]>)
    ensures
        forall|v: u32|
            #[trigger] start_sites(xyz).contains(v) <==> exists|i: int, k: int|
                0 <= i < xyz.len() && i as u32 == v && 0 <= k < 3 && (#[trigger] is_axis_min(
                    xyz,
                    k,
                    xyz[i][k],
                ) || is_axis_max(xyz, k, xyz[i][k])),
{
    assert forall|i: int, k: int| 0 <= i < xyz.len() && 0 <= k < 3 implies (#[trigger] is_axis_min(
        xyz,
        k,
        xyz[i][k],
    ) || is_axis_max(xyz, k, xyz[i][k])) <==> on_axis_bound(xyz, i, k) by {
    }
    assert forall|v: u32| #[trigger] start_sites(xyz).contains(v) implies exists|i: int, k: int|
        0 <= i < xyz.len() && i as u32 == v && 0 <= k < 3 && (#[trigger] is_axis_min(
            xyz,
            k,
            xyz[i][k],
        ) || is_axis_max(xyz, k, xyz[i][k])) by {
        let i = choose|i: int| 0 <= i < xyz.len() && i as u32 == v && on_bounding_box(xyz, i);
        if on_axis_bound(xyz, i, 0) {
            assert(is_axis_min(xyz, 0, xyz[i][0]) || is_axis_max(xyz, 0, xyz[i][0]));
        } else if on_axis_bound(xyz, i, 1) {
            assert(is_axis_min(xyz, 1, xyz[i][1]) || is_axis_max(xyz, 1, xyz[i][1]));
        } else {
            assert(is_axis_min(xyz, 2, xyz[i][2]) || is_axis_max(xyz, 2, xyz[i][2]));
        }
    }
    assert forall|v: u32|
        (exists|i: int, k: int|
            0 <= i < xyz.len() && i as u32 == v && 0 <= k < 3 && (#[trigger] is_axis_min(
                xyz,
                k,
                xyz[i][k],
            ) || is_axis_max(xyz, k, xyz[i][k]))) implies #[trigger] start_sites(xyz).contains(v) by {
        let (i, k) = choose|i: int, k: int|
            0 <= i < xyz.len() && i as u32 == v && 0 <= k < 3 && (#[trigger] is_axis_min(
                xyz,
                k,
                xyz[i][k],
            ) || is_axis_max(xyz, k, xyz[i][k]));
        assert(on_axis_bound(xyz, i, k));
        assert(on_bounding_box(xyz, i));
    }
}

/// Site `i` is on the bound along axis `k` exactly when no site has a smaller
/// coordinate `k`, or none has a larger one.
proof fn lemma_axis_bound_unfold(xyz: Seq<[i64; 3]>, i: int, k: int)
    ensures
        on_axis_bound(xyz, i, k) <==> ((forall|j: int|
            0 <= j < xyz.len() ==> xyz[i][k] <= #[trigger] xyz[j][k]) || (forall|j: int|
            0 <= j < xyz.len() ==> #[trigger] xyz[j][k] <= xyz[i][k])),
{
}

/// A site is a start site exactly when, along some axis, no site has a
/// smaller coordinate or no site has a larger one (on lattices whose site
/// indices fit in a `u32`); and only site indices are start sites.
pub proof fn lemma_start_sites_are_coordinate_extremes(xyz: Seq<[i64; 3]>)
    ensures
        forall|v: u32| #[trigger] start_sites(xyz).contains(v) ==> v < xyz.len(),
        forall|i: int|
            0 <= i < xyz.len() ==> ((forall|j: int| 0 <= j < xyz.len() ==> xyz[i][0] <= #[trigger] xyz[j][0])
                || (forall|j: int| 0 <= j < xyz.len() ==> #[trigger] xyz[j][0] <= xyz[i][0])
                || (forall|j: int| 0 <= j < xyz.len() ==> xyz[i][1] <= #[trigger] xyz[j][1])
                || (forall|j: int| 0 <= j < xyz.len() ==> #[trigger] xyz[j][1] <= xyz[i][1])
                || (forall|j: int| 0 <= j < xyz.len() ==> xyz[i][2] <= #[trigger] xyz[j][2])
                || (forall|j: int| 0 <= j < xyz.len() ==> #[trigger] xyz[j][2] <= xyz[i][2])
            ) ==> #[trigger] start_sites(xyz).contains(i as u32),
        xyz.len() <= 0x1_0000_0000 ==> forall|i: int|
            0 <= i < xyz.len() ==> (#[trigger] start_sites(xyz).contains(i as u32) ==> ((forall|j: int| 0 <= j < xyz.len() ==> xyz[i][0] <= #[trigger] xyz[j][0])
                || (forall|j: int| 0 <= j < xyz.len() ==> #[trigger] xyz[j][0] <= xyz[i][0])
                || (forall|j: int| 0 <= j < xyz.len() ==> xyz[i][1] <= #[trigger] xyz[j][1])
                || (forall|j: int| 0 <= j < xyz.len() ==> #[trigger] xyz[j][1] <= xyz[i][1])
                || (forall|j: int| 0 <= j < xyz.len() ==> xyz[i][2] <= #[trigger] xyz[j][2])
                || (forall|j: int| 0 <= j < xyz.len() ==> #[trigger] xyz[j][2] <= xyz[i][2])
            )),
{
    assert forall|i: int| 0 <= i < xyz.len() implies (((forall|j: int| 0 <= j < xyz.len() ==> xyz[i][0] <= #[trigger] xyz[j][0])
        || (forall|j: int| 0 <= j < xyz.len() ==> #[trigger] xyz[j][0] <= xyz[i][0])
        || (forall|j: int| 0 <= j < xyz.len() ==> xyz[i][1] <= #[trigger] xyz[j][1])
        || (forall|j: int| 0 <= j < xyz.len() ==> #[trigger] xyz[j][1] <= xyz[i][1])
        || (forall|j: int| 0 <= j < xyz.len() ==> xyz[i][2] <= #[trigger] xyz[j][2])
        || (forall|j: int| 0 <= j < xyz.len() ==> #[trigger] xyz[j][2] <= xyz[i][2])
        ) <==> #[trigger] on_bounding_box(xyz, i)) by {
        lemma_axis_bound_unfold(xyz, i, 0);
        lemma_axis_bound_unfold(xyz, i, 1);
        lemma_axis_bound_unfold(xyz, i, 2);
    }
    assert forall|v: u32| #[trigger] start_sites(xyz).contains(v) implies v < xyz.len() by {
        let m = choose|m: int| 0 <= m < xyz.len() && m as u32 == v && on_bounding_box(xyz, m);
    }
    assert forall|i: int| 0 <= i < xyz.len() && on_bounding_box(xyz, i) implies #[trigger] start_sites(
        xyz,
    ).contains(i as u32) by {
        assert(0 <= i < xyz.len() && i as u32 == i as u32 && on_bounding_box(xyz, i));
    }
    if xyz.len() <= 0x1_0000_0000 {
        assert forall|i: int| 0 <= i < xyz.len() && #[trigger] start_sites(xyz).contains(i as u32) implies on_bounding_box(
            xyz,
            i,
        ) by {
            let m = choose|m: int| 0 <= m < xyz.len() && m as u32 == i as u32 && on_bounding_box(xyz, m);
            assert(m == i);
        }
    }
}

} // verus!
