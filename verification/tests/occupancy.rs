use fnv::{FnvHashMap, FnvHashSet};
use std::collections::HashMap;
use surface_probe::{
    find_key_for_value, frame_atoms, mark_snapshot, occ_onlyocc_from_xyz, occ_snapshot,
    try_frame_atoms, try_occ_onlyocc_from_xyz,
    AtomPosition,
};

fn empty_sites(n: usize) -> Vec<AtomPosition> {
    vec![AtomPosition { occ: 255, ..Default::default() }; n]
}

fn names() -> HashMap<String, u8> {
    let mut m = HashMap::new();
    m.insert("Pt".to_string(), 0);
    m.insert("Pd".to_string(), 1);
    m
}

fn chain_nn(n: u32) -> FnvHashMap<u32, [u32; 12]> {
    let mut nn = FnvHashMap::default();
    for i in 0..n {
        let mut list = [i; 12];
        if i > 0 {
            list[0] = i - 1;
        }
        if i + 1 < n {
            list[1] = i + 1;
        }
        nn.insert(i, list);
    }
    nn
}

fn set_of(items: &[u32]) -> FnvHashSet<u32> {
    items.iter().copied().collect()
}

#[test]
fn atoms_mark_the_sites_they_cover() {
    let mut atom_pos = empty_sites(6);
    let atoms = vec![("Pt".to_string(), vec![1, 2]), ("Pd".to_string(), vec![4])];
    let onlyocc = occ_onlyocc_from_xyz(&mut atom_pos, &atoms, &names(), None, &chain_nn(6));
    assert_eq!(onlyocc, set_of(&[1, 2, 4]));
    let occ: Vec<u8> = atom_pos.iter().map(|a| a.occ).collect();
    assert_eq!(occ, vec![255, 0, 0, 255, 1, 255]);
}

#[test]
fn later_atom_overwrites_code() {
    let mut atom_pos = empty_sites(3);
    let atoms = vec![("Pt".to_string(), vec![1]), ("Pd".to_string(), vec![1])];
    let onlyocc = occ_onlyocc_from_xyz(&mut atom_pos, &atoms, &names(), None, &chain_nn(3));
    assert_eq!(onlyocc, set_of(&[1]));
    assert_eq!(atom_pos[1].occ, 1);
}

#[test]
fn support_metal_is_marked_but_not_occupied() {
    let mut atom_pos = empty_sites(4);
    let atoms = vec![("Al".to_string(), vec![0, 3]), ("Pt".to_string(), vec![2])];
    let onlyocc = occ_onlyocc_from_xyz(&mut atom_pos, &atoms, &names(), None, &chain_nn(4));
    assert_eq!(onlyocc, set_of(&[2]));
    let occ: Vec<u8> = atom_pos.iter().map(|a| a.occ).collect();
    assert_eq!(occ, vec![100, 255, 0, 100]);
}

#[test]
fn support_metal_over_cluster_site_keeps_it_occupied() {
    let mut atom_pos = empty_sites(2);
    let atoms = vec![("Pt".to_string(), vec![0]), ("Al".to_string(), vec![0])];
    let onlyocc = occ_onlyocc_from_xyz(&mut atom_pos, &atoms, &names(), None, &chain_nn(2));
    assert_eq!(onlyocc, set_of(&[0]));
    assert_eq!(atom_pos[0].occ, 100);
}

#[test]
fn unknown_element_covering_nothing_is_ignored() {
    let mut atom_pos = empty_sites(2);
    let atoms = vec![("Xx".to_string(), vec![]), ("Pd".to_string(), vec![1])];
    let onlyocc = occ_onlyocc_from_xyz(&mut atom_pos, &atoms, &names(), None, &chain_nn(2));
    assert_eq!(onlyocc, set_of(&[1]));
}

#[test]
fn coating_fills_empty_neighbors() {
    let mut atom_pos = empty_sites(7);
    let atoms = vec![("Pt".to_string(), vec![3]), ("Al".to_string(), vec![4])];
    let onlyocc = occ_onlyocc_from_xyz(
        &mut atom_pos,
        &atoms,
        &names(),
        Some("Pd".to_string()),
        &chain_nn(7),
    );
    // site 2 is empty and gets coated; site 4 holds support metal and stays
    assert_eq!(onlyocc, set_of(&[2, 3]));
    let occ: Vec<u8> = atom_pos.iter().map(|a| a.occ).collect();
    assert_eq!(occ, vec![255, 255, 1, 0, 100, 255, 255]);
}

#[test]
fn other_fields_are_kept() {
    let mut atom_pos = empty_sites(2);
    atom_pos[1].cn_metal = 7;
    atom_pos[1].nn_support = 3;
    atom_pos[1].nn = [9; 12];
    let atoms = vec![("Pt".to_string(), vec![1])];
    occ_onlyocc_from_xyz(&mut atom_pos, &atoms, &names(), None, &chain_nn(2));
    assert_eq!(atom_pos[1].occ, 0);
    assert_eq!(atom_pos[1].cn_metal, 7);
    assert_eq!(atom_pos[1].nn_support, 3);
    assert_eq!(atom_pos[1].nn, [9; 12]);
}

#[test]
fn key_for_value_found() {
    let m = names();
    assert_eq!(find_key_for_value(&m, 1), Some("Pd"));
    assert_eq!(find_key_for_value(&m, 0), Some("Pt"));
}

#[test]
fn key_for_value_missing() {
    let m = names();
    assert_eq!(find_key_for_value(&m, 7), None);
    assert_eq!(find_key_for_value(&HashMap::new(), 0), None);
}

#[test]
fn frame_lists_placed_atoms() {
    let m = names();
    let snapshot = vec![255, 1, 255, 0, 0];
    let atoms = frame_atoms(&snapshot, &m);
    assert_eq!(atoms, vec![(1, "Pd"), (3, "Pt"), (4, "Pt")]);
    assert_eq!(try_frame_atoms(&snapshot, &m), Ok(atoms));
}

#[test]
fn frame_reports_first_unknown_code() {
    let m = names();
    let snapshot = vec![0, 255, 9, 100];
    assert_eq!(try_frame_atoms(&snapshot, &m), Err(9));
}

#[test]
fn snapshots_of_surface_sites() {
    let mut atom_pos = empty_sites(4);
    atom_pos[1].occ = 0;
    atom_pos[2].occ = 1;
    let sites = set_of(&[2, 3]);
    assert_eq!(occ_snapshot(&atom_pos, &sites), vec![255, 255, 1, 255]);
    assert_eq!(mark_snapshot(4, &sites, 1), vec![255, 255, 1, 1]);
}

#[test]
fn unknown_element_is_refused_and_nothing_changes() {
    let mut atom_pos = empty_sites(3);
    let atoms = vec![("Pt".to_string(), vec![0]), ("Xx".to_string(), vec![2])];
    let r = try_occ_onlyocc_from_xyz(&mut atom_pos, &atoms, &names(), None, &chain_nn(3));
    assert!(r.is_none());
    assert!(atom_pos.iter().all(|a| a.occ == 255));
}

#[test]
fn site_outside_lattice_is_refused() {
    let mut atom_pos = empty_sites(3);
    let atoms = vec![("Pt".to_string(), vec![3])];
    let r = try_occ_onlyocc_from_xyz(&mut atom_pos, &atoms, &names(), None, &chain_nn(3));
    assert!(r.is_none());
}

#[test]
fn unknown_coating_with_empty_neighbor_is_refused() {
    let mut atom_pos = empty_sites(3);
    let atoms = vec![("Pt".to_string(), vec![1])];
    let r = try_occ_onlyocc_from_xyz(
        &mut atom_pos,
        &atoms,
        &names(),
        Some("Au".to_string()),
        &chain_nn(3),
    );
    assert!(r.is_none());
    // the atoms were placed before coating was refused
    assert_eq!(atom_pos[1].occ, 0);
}

#[test]
fn unknown_coating_without_empty_neighbor_is_fine() {
    let mut atom_pos = empty_sites(2);
    let atoms = vec![("Pt".to_string(), vec![0, 1])];
    let r = try_occ_onlyocc_from_xyz(
        &mut atom_pos,
        &atoms,
        &names(),
        Some("Au".to_string()),
        &chain_nn(2),
    );
    assert_eq!(r, Some(set_of(&[0, 1])));
}

#[test]
fn coating_needs_neighbor_lists() {
    let mut atom_pos = empty_sites(3);
    let atoms = vec![("Pt".to_string(), vec![1])];
    let mut nn = chain_nn(3);
    nn.remove(&1);
    let r = try_occ_onlyocc_from_xyz(&mut atom_pos, &atoms, &names(), Some("Pd".to_string()), &nn);
    assert!(r.is_none());
}
