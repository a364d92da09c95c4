//! The table that maps element names (such as "Pt") to the occupation codes
//! stored per site, and its reverse lookup.

use std::collections::HashMap;
use vstd::prelude::*;

verus! {

/// Some entry of the table has the name `name`.
pub open spec fn has_name(names: Map<String, u8>, name: Seq<char>) -> bool {
    exists|k: String| #[trigger] names.contains_key(k) && k@ == name
}

/// The code stored for the name `name`.
pub open spec fn name_code(names: Map<String, u8>, name: Seq<char>) -> u8 {
    names[choose|k: String| #[trigger] names.contains_key(k) && k@ == name]
}

/// Some entry of the table holds the code `code`.
pub open spec fn has_code(names: Map<String, u8>, code: u8) -> bool {
    exists|k: String| #[trigger] names.contains_key(k) && names[k] == code
}

/// `HashMap::get` with the value copied out. Keys are compared as strings,
/// so a key is found when one entry's key has the same characters; the
/// table's keys are distinct strings, so that entry is the only one.
#[verifier::external_body]
pub(crate) fn atom_code(names: &HashMap<String, u8>, name: &String) -> (code: Option<u8>)
    ensures
        code == (if has_name(names@, name@) {
            Some(name_code(names@, name@))
        } else {
            None::<u8>
        }),
{
    names.get(name).copied()
}

/// `HashMap::iter`, each entry handed out as its key and a copy of its code.
/// Every entry occurs in the result, and only entries do; the order is the
/// map's iteration order, which this contract leaves open.
#[verifier::external_body]
pub(crate) fn atom_name_entries<'a>(names: &'a HashMap<String, u8>) -> (entries: Vec<(&'a String, u8)>)
    ensures
        forall|i: int|
            0 <= i < entries@.len() ==> names@.contains_key(*(#[trigger] entries@[i]).0)
                && names@[*entries@[i].0] == entries@[i].1,
        forall|k: String|
            #[trigger] names@.contains_key(k) ==> exists|i: int|
                0 <= i < entries@.len() && *(#[trigger] entries@[i]).0 == k,
{
    names.iter().map(|(k, v)| (k, *v)).collect()
}

/// A name whose code is `value`, or `None` when no entry holds that code.
/// When several names share the code, which one comes back depends on the
/// map's iteration order.
pub fn find_key_for_value<'a>(map: &'a HashMap<String, u8>, value: u8) -> (key: Option<&'a str>)
    ensures
        key is None <==> !has_code(map@, value),
        key is None ==> forall|name: String| #[trigger] map@.contains_key(name) ==> map@[name] != value,
        key matches Some(k) ==> exists|name: String|
            #[trigger] map@.contains_key(name) && name@ == k@ && map@[name] == value,
{
    let entries = atom_name_entries(map);
    let mut i: usize = 0;
    while i < entries.len()
        invariant
            0 <= i <= entries@.len(),
            forall|j: int|
                0 <= j < entries@.len() ==> map@.contains_key(*(#[trigger] entries@[j]).0)
                    && map@[*entries@[j].0] == entries@[j].1,
            forall|k: String|
                #[trigger] map@.contains_key(k) ==> exists|j: int|
                    0 <= j < entries@.len() && *(#[trigger] entries@[j]).0 == k,
            forall|j: int| 0 <= j < i ==> (#[trigger] entries@[j]).1 != value,
        decreases entries.len() - i,
    {
        let (name, code) = entries[i];
        if code == value {
            assert(map@.contains_key(*name) && map@[*name] == value);
            return Some(name.as_str());
        }
        i = i + 1;
    }
    proof {
        assert forall|k: String| #[trigger] map@.contains_key(k) implies map@[k] != value by {
            let j = choose|j: int| 0 <= j < entries@.len() && *(#[trigger] entries@[j]).0 == k;
            assert(entries@[j].1 != value);
        }
    }
    None
}

} // verus!
