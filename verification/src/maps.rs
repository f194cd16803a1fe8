//! Mutable access into a `HashMap` entry.
use vstd::prelude::*;
use std::collections::HashMap;
use std::collections::hash_map::Entry;
use std::hash::Hash;
use vstd::std_specs::hash::obeys_key_model;

verus! {

broadcast use vstd::std_specs::hash::group_hash_axioms;

/// Mutable access to the value under `k`, if any. Writes through the
/// reference land in the map; the map is otherwise unchanged.
pub fn get_mut<K: Hash + Eq, T>(m: &mut HashMap<K, T>, k: K) -> (r: Option<&mut T>)
    requires
        obeys_key_model::<K>(),
    ensures
        match r {
            Some(v) => old(m)@.contains_key(k) && *v == old(m)@[k] && final(m)@ == old(m)@.insert(k, *final(v)),
            None => !old(m)@.contains_key(k) && final(m)@ == old(m)@,
        },
{
    match m.entry(k) {
        Entry::Occupied(e) => Some(e.into_mut()),
        Entry::Vacant(_) => None,
    }
}

} // verus!
