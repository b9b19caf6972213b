//! The outside hash collections, keyed by numbers.

use rustc_hash::{FxBuildHasher, FxHashMap, FxHashSet};
use vstd::prelude::*;

verus! {

/// The hasher of the outside hash collections.
#[verifier::external_type_specification]
#[verifier::external_body]
pub struct ExFxBuildHasher(FxBuildHasher);

/// `rustc_hash::FxHashSet::default` makes an empty set.
#[verifier::external_body]
pub(crate) fn fx_set_new() -> (r: FxHashSet<u64>)
    ensures
        r@ == Set::<u64>::empty(),
{
    FxHashSet::default()
}

/// `rustc_hash::FxHashSet::len` gives the number of items.
#[verifier::external_body]
pub(crate) fn fx_set_len(set: &FxHashSet<u64>) -> (r: usize)
    ensures
        r == set@.len(),
{
    set.len()
}

/// `rustc_hash::FxHashSet::contains` tells whether an item is in the set.
#[verifier::external_body]
pub(crate) fn fx_set_contains(set: &FxHashSet<u64>, item: u64) -> (r: bool)
    ensures
        r == set@.contains(item),
{
    set.contains(&item)
}

/// `rustc_hash::FxHashSet::insert` adds an item and tells whether it is new.
#[verifier::external_body]
pub(crate) fn fx_set_insert(set: &mut FxHashSet<u64>, item: u64) -> (r: bool)
    ensures
        r == !old(set)@.contains(item),
        final(set)@ == old(set)@.insert(item),
{
    set.insert(item)
}

/// `rustc_hash::FxHashSet::iter` gives every item of the set once, in an order of its own.
#[verifier::external_body]
pub(crate) fn fx_set_items(set: &FxHashSet<u64>) -> (r: Vec<u64>)
    ensures
        r@.no_duplicates(),
        r@.to_set() == set@,
{
    set.iter().copied().collect()
}

/// `rustc_hash::FxHashMap::default` makes an empty map.
#[verifier::external_body]
pub(crate) fn fx_map_new<V>() -> (r: FxHashMap<u64, V>)
    ensures
        r@.dom() == Set::<u64>::empty(),
{
    FxHashMap::default()
}

/// `rustc_hash::FxHashMap::len` gives the number of entries.
#[verifier::external_body]
pub(crate) fn fx_map_len<V>(map: &FxHashMap<u64, V>) -> (r: usize)
    ensures
        r == map@.dom().len(),
{
    map.len()
}

/// `rustc_hash::FxHashMap::get` gives the value under a key, if there is one.
#[verifier::external_body]
pub(crate) fn fx_map_get<V>(map: &FxHashMap<u64, V>, key: u64) -> (r: Option<&V>)
    ensures
        r == (if map@.contains_key(key) {
            Some(&map@[key])
        } else {
            None
        }),
{
    map.get(&key)
}

/// `rustc_hash::FxHashMap::insert` puts a value under a key and gives the one that was there.
#[verifier::external_body]
pub(crate) fn fx_map_insert<V>(map: &mut FxHashMap<u64, V>, key: u64, value: V) -> (r: Option<V>)
    ensures
        final(map)@ == old(map)@.insert(key, value),
        r == (if old(map)@.contains_key(key) {
            Some(old(map)@[key])
        } else {
            None
        }),
{
    map.insert(key, value)
}

/// `rustc_hash::FxHashMap::remove` takes the value under a key out, if there is one.
#[verifier::external_body]
pub(crate) fn fx_map_remove<V>(map: &mut FxHashMap<u64, V>, key: u64) -> (r: Option<V>)
    ensures
        final(map)@ == old(map)@.remove(key),
        r == (if old(map)@.contains_key(key) {
            Some(old(map)@[key])
        } else {
            None
        }),
{
    map.remove(&key)
}

/// `rustc_hash::FxHashMap::keys` gives every key of the map once, in an order of its own.
#[verifier::external_body]
pub(crate) fn fx_map_keys<V>(map: &FxHashMap<u64, V>) -> (r: Vec<u64>)
    ensures
        r@.no_duplicates(),
        r@.to_set() == map@.dom(),
{
    map.keys().copied().collect()
}

} // verus!
