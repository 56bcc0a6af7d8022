//! The hash collections of outside crates, with what their operations do to
//! the contents.

use std::collections::hash_map::RandomState;
use std::collections::HashMap;
use std::hash::Hash;

use dashmap::{DashMap, DashSet};
use rustc_hash::FxBuildHasher;
use vstd::prelude::*;

verus! {

/// The deterministic hasher of `rustc_hash`.
#[verifier::external_type_specification]
#[verifier::external_body]
pub struct ExFxBuildHasher(rustc_hash::FxBuildHasher);

/// A hash map with the hasher of `rustc_hash`.
pub type FxMap<K, V> = HashMap<K, V, FxBuildHasher>;

/// Keys whose `Eq` and `Hash` are std's own, on integers and tuples of them.
pub(crate) trait FxKey: Eq + Hash {

}

impl FxKey for u64 {

}

impl FxKey for (u64, u32) {

}

/// `HashMap::insert` with `FxBuildHasher`: binds the key to the value and
/// returns what it was bound to before.
#[verifier::external_body]
pub(crate) fn fx_insert<K: FxKey, V>(map: &mut FxMap<K, V>, key: K, value: V) -> (previous: Option<
    V,
>)
    ensures
        final(map)@ == old(map)@.insert(key, value),
        previous == if old(map)@.dom().contains(key) {
            Some(old(map)@[key])
        } else {
            None::<V>
        },
{
    map.insert(key, value)
}

/// `HashMap::remove` with `FxBuildHasher`: unbinds the key and returns what it
/// was bound to.
#[verifier::external_body]
pub(crate) fn fx_remove<K: FxKey, V>(map: &mut FxMap<K, V>, key: &K) -> (previous: Option<V>)
    ensures
        final(map)@ == old(map)@.remove(*key),
        previous == if old(map)@.dom().contains(*key) {
            Some(old(map)@[*key])
        } else {
            None::<V>
        },
{
    map.remove(key)
}

/// `HashMap::get` with `FxBuildHasher`: what the key is bound to.
#[verifier::external_body]
pub(crate) fn fx_get<'a, K: FxKey, V>(map: &'a FxMap<K, V>, key: &K) -> (value: Option<&'a V>)
    ensures
        value is Some <==> map@.dom().contains(*key),
        value is Some ==> *value->0 == map@[*key],
{
    map.get(key)
}

/// `HashMap::contains_key` with `FxBuildHasher`: whether the key is bound.
#[verifier::external_body]
pub(crate) fn fx_contains<K: FxKey, V>(map: &FxMap<K, V>, key: &K) -> (found: bool)
    ensures
        found == map@.dom().contains(*key),
{
    map.contains_key(key)
}

/// `HashMap::len` with `FxBuildHasher`: the number of bound keys.
#[verifier::external_body]
pub(crate) fn fx_len<K: FxKey, V>(map: &FxMap<K, V>) -> (len: usize)
    ensures
        len == map@.dom().len(),
{
    map.len()
}

/// `HashMap::keys` with `FxBuildHasher` over integer keys: every bound key
/// once, in no promised order.
#[verifier::external_body]
pub(crate) fn fx_hash_keys<V>(map: &FxMap<u64, V>) -> (keys: Vec<u64>)
    ensures
        keys@.no_duplicates(),
        keys@.to_set() == map@.dom(),
{
    map.keys().copied().collect()
}

/// `HashMap::keys` with `FxBuildHasher` over worker keys: every bound key once,
/// in no promised order.
#[verifier::external_body]
pub(crate) fn fx_worker_keys<V>(map: &FxMap<(u64, u32), V>) -> (keys: Vec<(u64, u32)>)
    ensures
        keys@.no_duplicates(),
        keys@.to_set() == map@.dom(),
{
    map.keys().copied().collect()
}

/// The concurrent hash map of `dashmap`.
#[verifier::external_type_specification]
#[verifier::external_body]
#[verifier::reject_recursive_types(K)]
#[verifier::reject_recursive_types(V)]
#[verifier::reject_recursive_types(S)]
pub struct ExDashMap<K, V, S>(dashmap::DashMap<K, V, S>);

/// What a concurrent map from worker numbers to thread numbers holds.
pub uninterp spec fn dash_threads(map: &DashMap<u64, usize, FxBuildHasher>) -> Map<u64, usize>;

/// `DashMap::with_hasher`: a map without entries.
#[verifier::external_body]
pub(crate) fn dash_threads_new() -> (map: DashMap<u64, usize, FxBuildHasher>)
    ensures
        (dash_threads(&map) == Map::<u64, usize>::empty()),
{
    DashMap::with_hasher(FxBuildHasher)
}

/// `DashMap::get`: what a key is bound to.
#[verifier::external_body]
pub(crate) fn dash_threads_get(map: &DashMap<u64, usize, FxBuildHasher>, key: u64) -> (value: Option<
    usize,
>)
    ensures
        value == if dash_threads(map).dom().contains(key) {
            Some(dash_threads(map)[key])
        } else {
            None::<usize>
        },
{
    map.get(&key).map(|v| *v)
}

/// `DashMap::insert`: binds the key to the value. The map is taken by exclusive
/// reference, so nobody else changes it meanwhile.
#[verifier::external_body]
pub(crate) fn dash_threads_insert(
    map: &mut DashMap<u64, usize, FxBuildHasher>,
    key: u64,
    value: usize,
)
    ensures
        dash_threads(final(map)) == dash_threads(old(map)).insert(key, value),
{
    map.insert(key, value);
}

/// What a concurrent map from pairs of names to places holds.
pub uninterp spec fn dash_places(map: &DashMap<(String, String), usize, RandomState>) -> Map<
    (Seq<char>, Seq<char>),
    usize,
>;

/// `DashMap::new`: a map without entries.
#[verifier::external_body]
pub(crate) fn dash_places_new() -> (map: DashMap<(String, String), usize, RandomState>)
    ensures
        (dash_places(&map) == Map::<(Seq<char>, Seq<char>), usize>::empty()),
{
    DashMap::new()
}

/// `DashMap::get`: what a pair of names is bound to.
#[verifier::external_body]
pub(crate) fn dash_places_get(
    map: &DashMap<(String, String), usize, RandomState>,
    first: &str,
    second: &str,
) -> (place: Option<usize>)
    ensures
        place == if dash_places(map).dom().contains((first@, second@)) {
            Some(dash_places(map)[(first@, second@)])
        } else {
            None::<usize>
        },
{
    map.get(&(first.to_owned(), second.to_owned())).map(|v| *v)
}

/// `DashMap::insert`: binds a pair of names to a place. The map is taken by
/// exclusive reference, so nobody else changes it meanwhile.
#[verifier::external_body]
pub(crate) fn dash_places_insert(
    map: &mut DashMap<(String, String), usize, RandomState>,
    first: &str,
    second: &str,
    place: usize,
)
    ensures
        dash_places(final(map)) == dash_places(old(map)).insert((first@, second@), place),
{
    map.insert((first.to_owned(), second.to_owned()), place);
}

/// `DashMap::remove`: unbinds a pair of names.
#[verifier::external_body]
pub(crate) fn dash_places_remove(
    map: &mut DashMap<(String, String), usize, RandomState>,
    first: &str,
    second: &str,
)
    ensures
        dash_places(final(map)) == dash_places(old(map)).remove((first@, second@)),
{
    map.remove(&(first.to_owned(), second.to_owned()));
}

/// The concurrent hash set of `dashmap`.
#[verifier::external_type_specification]
#[verifier::external_body]
#[verifier::reject_recursive_types(K)]
#[verifier::reject_recursive_types(S)]
pub struct ExDashSet<K, S>(dashmap::DashSet<K, S>);

/// What a concurrent set of hashes holds.
pub uninterp spec fn dash_hashes(set: &DashSet<u64, RandomState>) -> Set<u64>;

/// `DashSet::new`: a set of nothing.
#[verifier::external_body]
pub(crate) fn dash_hashes_new() -> (set: DashSet<u64, RandomState>)
    ensures
        dash_hashes(&set) == Set::<u64>::empty(),
{
    DashSet::new()
}

/// `DashSet::insert`: puts a hash in. The set is taken by exclusive reference, so
/// nobody else changes it meanwhile.
#[verifier::external_body]
pub(crate) fn dash_hashes_insert(set: &mut DashSet<u64, RandomState>, hash: u64)
    ensures
        dash_hashes(final(set)) == dash_hashes(old(set)).insert(hash),
{
    set.insert(hash);
}

/// `DashSet::remove`: takes a hash out. The set is taken by exclusive reference,
/// so nobody else changes it meanwhile.
#[verifier::external_body]
pub(crate) fn dash_hashes_remove(set: &mut DashSet<u64, RandomState>, hash: u64)
    ensures
        dash_hashes(final(set)) == dash_hashes(old(set)).remove(hash),
{
    set.remove(&hash);
}

/// `DashSet::contains`: whether a hash is in.
#[verifier::external_body]
pub(crate) fn dash_hashes_contains(set: &DashSet<u64, RandomState>, hash: u64) -> (r: bool)
    ensures
        r == dash_hashes(set).contains(hash),
{
    set.contains(&hash)
}

/// `DashSet::len`: the number of hashes.
#[verifier::external_body]
pub(crate) fn dash_hashes_len(set: &DashSet<u64, RandomState>) -> (len: usize)
    ensures
        len == dash_hashes(set).len(),
{
    set.len()
}

/// `DashSet::is_empty`: whether there are no hashes.
#[verifier::external_body]
pub(crate) fn dash_hashes_is_empty(set: &DashSet<u64, RandomState>) -> (r: bool)
    ensures
        r == (dash_hashes(set) == Set::<u64>::empty()),
{
    set.is_empty()
}

} // verus!
