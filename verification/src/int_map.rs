//! Maps keyed by a position, as `nohash_hasher` makes them: each operation
//! that the library needs, with what it is taken to do.

use nohash_hasher::IntMap;
use nohash_hasher::NoHashHasher;
use std::hash::BuildHasherDefault;
use vstd::prelude::*;

verus! {

/// The hasher of `nohash_hasher`: it hands an integer key back as its own hash.
#[verifier::external_type_specification]
#[verifier::external_body]
#[verifier::reject_recursive_types(T)]
pub struct ExNoHashHasher<T>(NoHashHasher<T>);

/// The hasher builder of std that `nohash_hasher` makes its maps with.
#[verifier::external_type_specification]
#[verifier::external_body]
#[verifier::reject_recursive_types(H)]
pub struct ExBuildHasherDefault<H>(BuildHasherDefault<H>);

/// `IntMap::default`: a map that holds nothing.
#[verifier::external_body]
pub(crate) fn empty<V>() -> (r: IntMap<usize, V>)
    ensures
        r@.dom() == Set::<usize>::empty(),
{
    IntMap::default()
}

/// `HashMap::get` on an `IntMap`: the value stored under `key`, if there is one.
#[verifier::external_body]
pub(crate) fn get<'a, V>(map: &'a IntMap<usize, V>, key: usize) -> (r: Option<&'a V>)
    ensures
        r == (if map@.contains_key(key) {
            Some(&map@[key])
        } else {
            None
        }),
{
    map.get(&key)
}

/// `HashMap::insert` on an `IntMap`: `key` now holds `value`, every other key
/// is as it was, and the value that `key` held before is handed back.
#[verifier::external_body]
pub(crate) fn insert<V>(map: &mut IntMap<usize, V>, key: usize, value: V) -> (r: Option<V>)
    ensures
        final(map)@ == old(map)@.insert(key, value),
        r == (if old(map)@.contains_key(key) {
            Some(old(map)@[key])
        } else {
            None
        }),
{
    map.insert(key, value)
}

/// `HashMap::remove` on an `IntMap`: `key` holds nothing afterwards, every
/// other key is as it was, and the value that `key` held is handed back.
#[verifier::external_body]
pub(crate) fn remove<V>(map: &mut IntMap<usize, V>, key: usize) -> (r: Option<V>)
    ensures
        final(map)@ == old(map)@.remove(key),
        r == (if old(map)@.contains_key(key) {
            Some(old(map)@[key])
        } else {
            None
        }),
{
    map.remove(&key)
}

/// `HashMap::keys` on an `IntMap`: every key once, in no stated order.
#[verifier::external_body]
pub(crate) fn keys<V>(map: &IntMap<usize, V>) -> (r: Vec<usize>)
    ensures
        r@.no_duplicates(),
        r@.to_set() == map@.dom(),
{
    map.keys().copied().collect()
}

} // verus!
