//! Hash sets and maps keyed by lattice site indices, hashed with FNV.
//!
//! The standard collections are used with the `fnv` crate's hasher. The
//! FNV hasher is deterministic (a fixed starting state, a fixed update per
//! byte), so the usual set/map semantics hold for these collections; the
//! trusted functions below state that semantics over the views of the
//! collections.

use fnv::{FnvBuildHasher, FnvHasher};
use std::collections::{HashMap, HashSet};
use vstd::prelude::*;

verus! {

#[verifier::external_type_specification]
#[verifier::external_body]
pub struct ExFnvHasher(FnvHasher);

#[verifier::external_type_specification]
#[verifier::external_body]
#[verifier::reject_recursive_types(H)]
pub struct ExBuildHasherDefault<H>(std::hash::BuildHasherDefault<H>);

/// An empty FNV-hashed set, made by `HashSet::with_hasher` with the
/// default `FnvBuildHasher`.
#[verifier::external_body]
pub(crate) fn site_set_new() -> (s: HashSet<u32, FnvBuildHasher>)
    ensures
        s@ == Set::<u32>::empty(),
{
    HashSet::with_hasher(FnvBuildHasher::default())
}

/// `HashSet::insert`: the key is in the set afterwards, nothing else changes,
/// and the result tells whether it was absent before.
#[verifier::external_body]
pub(crate) fn site_set_insert(s: &mut HashSet<u32, FnvBuildHasher>, k: u32) -> (added: bool)
    ensures
        final(s)@ == old(s)@.insert(k),
        added == !old(s)@.contains(k),
{
    s.insert(k)
}

/// `HashSet::contains`.
#[verifier::external_body]
pub(crate) fn site_set_contains(s: &HashSet<u32, FnvBuildHasher>, k: u32) -> (found: bool)
    ensures
        found == s@.contains(k),
{
    s.contains(&k)
}

/// `Extend::extend` of a set with the items of another set: the result is
/// the union of the two.
#[verifier::external_body]
pub(crate) fn site_set_extend(s: &mut HashSet<u32, FnvBuildHasher>, other: &HashSet<u32, FnvBuildHasher>)
    ensures
        final(s)@ == old(s)@.union(other@),
{
    s.extend(other.iter())
}

/// `HashSet::iter`, with each item copied out: every item of the set occurs
/// exactly once in the result. The order is the set's iteration order, which
/// this contract leaves open.
#[verifier::external_body]
pub(crate) fn site_set_items(s: &HashSet<u32, FnvBuildHasher>) -> (items: Vec<u32>)
    ensures
        items@.no_duplicates(),
        forall|k: u32| s@.contains(k) <==> items@.contains(k),
{
    s.iter().copied().collect()
}

/// `HashMap::get`, with the value copied out: the value stored for the key,
/// if the map holds the key.
#[verifier::external_body]
pub(crate) fn site_map_get(m: &HashMap<u32, [u32; 12], FnvBuildHasher>, k: u32) -> (v: Option<[u32; 12]>)
    ensures
        v == (if m@.contains_key(k) { Some(m@[k]) } else { None::<[u32; 12]> }),
{
    m.get(&k).copied()
}

/// An empty FNV-hashed map, made by `HashMap::with_capacity_and_hasher`
/// with the default `FnvBuildHasher`; the capacity only reserves room.
#[verifier::external_body]
pub(crate) fn site_map_with_capacity(capacity: usize) -> (m: HashMap<u32, [u32; 12], FnvBuildHasher>)
    ensures
        m@.dom() == Set::<u32>::empty(),
{
    HashMap::with_capacity_and_hasher(capacity, FnvBuildHasher::default())
}

/// `HashMap::insert`: the key maps to the value afterwards, nothing else
/// changes, and the result is the value the key had before, if any.
#[verifier::external_body]
pub(crate) fn site_map_insert(m: &mut HashMap<u32, [u32; 12], FnvBuildHasher>, k: u32, v: [u32; 12]) -> (previous: Option<[u32; 12]>)
    ensures
        final(m)@ == old(m)@.insert(k, v),
        previous == (if old(m)@.contains_key(k) { Some(old(m)@[k]) } else { None::<[u32; 12]> }),
{
    m.insert(k, v)
}

} // verus!
