//! The map from elements to their column headers: rustc_hash's `FxHashMap`.
use rustc_hash::FxBuildHasher;
use std::collections::HashMap;
use vstd::prelude::*;

verus! {

/// Element keys to header node indices.
pub type KeyMap = HashMap<u64, usize, FxBuildHasher>;

#[verifier::external_type_specification]
#[verifier::external_body]
pub struct ExFxBuildHasher(FxBuildHasher);

/// Relies on std's `HashMap::get` under `FxBuildHasher`: the value stored
/// under the key, if there is one.
#[verifier::external_body]
pub(crate) fn key_map_get(m: &KeyMap, k: u64) -> (r: Option<usize>)
    ensures
        r == (if m@.contains_key(k) {
            Some(m@[k])
        } else {
            None
        }),
{
    m.get(&k).copied()
}

/// Relies on std's `HashMap::insert` under `FxBuildHasher`: the key maps to
/// the value, and every other key keeps its value.
#[verifier::external_body]
pub(crate) fn key_map_insert(m: &mut KeyMap, k: u64, v: usize)
    ensures
        final(m)@ == old(m)@.insert(k, v),
{
    m.insert(k, v);
}

} // verus!
