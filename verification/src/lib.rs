//! Surface detection for atomic clusters placed on a lattice of sites.
//!
//! A sample's atoms are placed onto the lattice (`occ_onlyocc_from_xyz`),
//! the neighbor lists of the lattice are read (`read_nn`), and the surface
//! of the cluster is found by a layer-by-layer search through the empty
//! sites that starts on the bounding box of the lattice (`surface`).

pub mod atom_names;
pub mod fnv_collections;
pub mod layering;
pub mod read_and_write;
pub mod start_sites;
pub mod text;

pub use atom_names::find_key_for_value;
pub use layering::{surface, try_surface};
pub use read_and_write::{
    frame_atoms, mark_snapshot, occ_onlyocc_from_xyz, occ_snapshot, parse_nn_line, read_nn,
    try_frame_atoms, try_occ_onlyocc_from_xyz, try_read_nn,
};
pub use start_sites::{get_start_positions, min_max_xyz};

use vstd::prelude::*;

verus! {

/// The state of one lattice site: its occupation code (255 for empty), the
/// number of metal neighbors, the number of support neighbors and its
/// neighbor list.
#[derive(Clone, Default)]
pub struct AtomPosition {
    pub occ: u8,
    pub cn_metal: usize,
    pub nn_support: u8,
    pub nn: [u32; 12],
}

} // verus!
