use fnv::{FnvHashMap, FnvHashSet};
use surface_probe::{get_start_positions, min_max_xyz, surface, try_surface};

fn grid(n: i64) -> (Vec<[i64; 3]>, FnvHashMap<u32, [u32; 12]>) {
    let mut sites = Vec::new();
    let mut nn = FnvHashMap::default();
    let idx = |x: i64, y: i64, z: i64| (x + n * y + n * n * z) as u32;
    for z in 0..n {
        for y in 0..n {
            for x in 0..n {
                sites.push([x, y, z]);
                let me = idx(x, y, z);
                let mut list = [me; 12];
                let mut k = 0;
                for (dx, dy, dz) in [(1, 0, 0), (-1, 0, 0), (0, 1, 0), (0, -1, 0), (0, 0, 1), (0, 0, -1)] {
                    let (a, b, c) = (x + dx, y + dy, z + dz);
                    if a >= 0 && a < n && b >= 0 && b < n && c >= 0 && c < n {
                        list[k] = idx(a, b, c);
                        k += 1;
                    }
                }
                nn.insert(me, list);
            }
        }
    }
    (sites, nn)
}

fn set_of(items: &[u32]) -> FnvHashSet<u32> {
    items.iter().copied().collect()
}

#[test]
fn min_max_of_each_axis() {
    let xyz = vec![[3, -1, 7], [0, 5, 7], [9, 2, -4]];
    assert_eq!(min_max_xyz(&xyz, 0), (0, 9));
    assert_eq!(min_max_xyz(&xyz, 1), (-1, 5));
    assert_eq!(min_max_xyz(&xyz, 2), (-4, 7));
}

#[test]
fn min_max_of_single_site() {
    let xyz = vec![[4, 4, 4]];
    assert_eq!(min_max_xyz(&xyz, 1), (4, 4));
}

#[test]
fn start_positions_are_bounding_box_sites() {
    let (sites, _) = grid(3);
    let mut start = FnvHashSet::default();
    get_start_positions(&sites, &mut start);
    let expected: FnvHashSet<u32> = (0..27).filter(|&i| i != 13).collect();
    assert_eq!(start, expected);
}

#[test]
fn start_positions_keep_earlier_entries() {
    let xyz = vec![[0, 0, 0], [1, 1, 1], [2, 2, 2]];
    let mut start = set_of(&[40]);
    get_start_positions(&xyz, &mut start);
    assert_eq!(start, set_of(&[40, 0, 2]));
}

#[test]
fn start_positions_with_ties() {
    let xyz = vec![[0, 5, 1], [3, 5, 1], [1, 2, 0], [2, 3, 2], [1, 3, 1]];
    let mut start = FnvHashSet::default();
    get_start_positions(&xyz, &mut start);
    // site 4 is inside on every axis
    assert_eq!(start, set_of(&[0, 1, 2, 3]));
}

#[test]
fn surface_of_single_center_atom() {
    let (sites, nn) = grid(3);
    let occ = set_of(&[13]);
    let (surf, near) = surface(&occ, &nn, &sites);
    assert_eq!(surf, set_of(&[13]));
    assert_eq!(near, set_of(&[4, 10, 12, 14, 16, 22]));
}

#[test]
fn occupied_start_site_is_not_surface() {
    let (sites, nn) = grid(3);
    let occ = set_of(&[13, 4]);
    let (surf, near) = surface(&occ, &nn, &sites);
    assert_eq!(surf, set_of(&[13]));
    assert_eq!(near, set_of(&[4, 10, 12, 14, 16, 22]));
}

#[test]
fn surface_of_block_in_box() {
    let (sites, nn) = grid(5);
    let mut block = Vec::new();
    for z in 1..4u32 {
        for y in 1..4u32 {
            for x in 1..4u32 {
                block.push(x + 5 * y + 25 * z);
            }
        }
    }
    let occ = set_of(&block);
    let (surf, near) = surface(&occ, &nn, &sites);
    assert_eq!(surf.len(), 26);
    assert!(!surf.contains(&62));
    assert!(surf.iter().all(|s| occ.contains(s)));
    assert_eq!(near.len(), 54);
    assert!(near.iter().all(|s| !occ.contains(s)));
}

#[test]
fn empty_cluster_has_empty_surface() {
    let (sites, nn) = grid(4);
    let occ = FnvHashSet::default();
    let (surf, near) = surface(&occ, &nn, &sites);
    assert!(surf.is_empty());
    assert!(near.is_empty());
}

#[test]
fn enclosed_empty_site_is_not_reached() {
    // the center of a 5x5x5 box is empty, wrapped in occupied sites
    let (sites, nn) = grid(5);
    let mut shell = Vec::new();
    for z in 1..4u32 {
        for y in 1..4u32 {
            for x in 1..4u32 {
                let i = x + 5 * y + 25 * z;
                if i != 62 {
                    shell.push(i);
                }
            }
        }
    }
    let occ = set_of(&shell);
    let (surf, near) = surface(&occ, &nn, &sites);
    assert_eq!(surf.len(), 26);
    assert!(!near.contains(&62));
}

#[test]
fn search_leaving_the_map_is_reported() {
    let (sites, mut nn) = grid(3);
    nn.remove(&13);
    let occ = FnvHashSet::default();
    assert!(try_surface(&occ, &nn, &sites).is_none());
    // with the center occupied the search never needs its list
    let occ = set_of(&[13]);
    let (surf, near) = try_surface(&occ, &nn, &sites).unwrap();
    assert_eq!(surf, set_of(&[13]));
    assert_eq!(near.len(), 6);
}

#[test]
fn surface_and_near_surface_face_each_other() {
    let (sites, nn) = grid(5);
    let occ = set_of(&[62, 63, 67, 87]);
    let (surf, near) = surface(&occ, &nn, &sites);
    assert!(!surf.is_empty() && !near.is_empty());
    for s in &surf {
        assert!(near.iter().any(|e| nn[e].contains(s)));
    }
    for e in &near {
        assert!(surf.iter().any(|s| nn[e].contains(s)));
    }
}

#[test]
fn single_site_lattice_starts_there() {
    let xyz = vec![[5, -5, 0]];
    let mut start = FnvHashSet::default();
    get_start_positions(&xyz, &mut start);
    assert_eq!(start, set_of(&[0]));
}
