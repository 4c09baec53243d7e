//! The `rustc_hash` collections, keyed by file reference numbers.

use rustc_hash::{FxBuildHasher, FxHashMap, FxHashSet};
use vstd::prelude::*;

verus! {

/// The hasher state of the `rustc_hash` collections, which holds nothing.
#[verifier::external_type_specification]
#[verifier::external_body]
pub struct ExFxBuildHasher(FxBuildHasher);

/// The map has the given number of keys: they can be listed, each once.
pub open spec fn key_count(m: Map<u64, u32>, n: nat) -> bool {
    exists|keys: Seq<u64>|
        #![trigger keys.no_duplicates()]
        keys.no_duplicates() && keys.len() == n && keys.to_set() == m.dom()
}

/// `HashMap::insert` on an `FxHashMap`: the key is mapped to the value, whatever it was mapped to.
#[verifier::external_body]
pub(crate) fn map_insert(m: &mut FxHashMap<u64, u32>, k: u64, v: u32)
    ensures
        final(m)@ == old(m)@.insert(k, v),
{
    m.insert(k, v);
}

/// `HashMap::get` on an `FxHashMap`: the value of the key, if it has one.
#[verifier::external_body]
pub(crate) fn map_get(m: &FxHashMap<u64, u32>, k: u64) -> (r: Option<u32>)
    ensures
        r == (if m@.contains_key(k) {
            Some(m@[k])
        } else {
            None
        }),
{
    m.get(&k).copied()
}

/// `HashMap::remove` on an `FxHashMap`: takes the key out and yields its value, if it had one.
#[verifier::external_body]
pub(crate) fn map_remove(m: &mut FxHashMap<u64, u32>, k: u64) -> (r: Option<u32>)
    ensures
        final(m)@ == old(m)@.remove(k),
        r == (if old(m)@.contains_key(k) {
            Some(old(m)@[k])
        } else {
            None
        }),
{
    m.remove(&k)
}

/// `HashMap::len` on an `FxHashMap`: the number of its keys.
#[verifier::external_body]
pub(crate) fn map_len(m: &FxHashMap<u64, u32>) -> (r: usize)
    ensures
        key_count(m@, r as nat),
{
    m.len()
}

/// `HashSet::contains` on an `FxHashSet`: whether the key is in the set.
#[verifier::external_body]
pub(crate) fn set_contains(s: &FxHashSet<u64>, k: u64) -> (r: bool)
    ensures
        r == s@.contains(k),
{
    s.contains(&k)
}

/// `HashSet::insert` on an `FxHashSet`: puts the key into the set and tells whether it is new.
#[verifier::external_body]
pub(crate) fn set_insert(s: &mut FxHashSet<u64>, k: u64) -> (r: bool)
    ensures
        final(s)@ == old(s)@.insert(k),
        r == !old(s)@.contains(k),
{
    s.insert(k)
}

} // verus!
