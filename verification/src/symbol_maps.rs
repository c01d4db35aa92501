//! Concurrent maps from symbols to plain values.
//!
//! The maps are `dashmap::DashMap`s. They are only changed through `&mut`, so what
//! one holds is a function of its value. Statistics are handed out in
//! `rustc_hash::FxHashMap`s.

use dashmap::DashMap;
use vstd::prelude::*;

verus! {

/// `dashmap::DashMap`, opaque.
#[verifier::external_type_specification]
#[verifier::external_body]
#[verifier::reject_recursive_types(K)]
#[verifier::reject_recursive_types(V)]
#[verifier::reject_recursive_types(S)]
pub struct ExDashMap<K, V, S>(dashmap::DashMap<K, V, S>);

/// `rustc_hash::FxBuildHasher`, which an `FxHashMap` hashes with, opaque.
#[verifier::external_type_specification]
#[verifier::external_body]
pub struct ExFxBuildHasher(rustc_hash::FxBuildHasher);

/// `list` names every key of a map once, with its value, in some order.
pub open spec fn lists_entries<V>(map: Map<Seq<char>, V>, list: Seq<(String, V)>) -> bool {
    &&& forall|i: int|
        0 <= i < list.len() ==> map.contains_key((#[trigger] list[i]).0@) && map[list[i].0@]
            == list[i].1
    &&& forall|i: int, j: int|
        0 <= i < j < list.len() ==> (#[trigger] list[i]).0@ != (#[trigger] list[j]).0@
    &&& forall|key: Seq<char>| #[trigger]
        map.contains_key(key) ==> exists|i: int|
            0 <= i < list.len() && (#[trigger] list[i]).0@ == key
}

/// What a map from texts to integers holds.
pub uninterp spec fn u64_entries(map: DashMap<String, u64>) -> Map<Seq<char>, u64>;

/// `DashMap::new`: an empty map.
#[verifier::external_body]
pub(crate) fn u64_map() -> (r: DashMap<String, u64>)
    ensures
        u64_entries(r) == (Map::<Seq<char>, u64>::empty()),
{
    DashMap::new()
}

/// `DashMap::insert`: the key maps to the value, other keys are as before.
#[verifier::external_body]
pub(crate) fn u64_insert(map: &mut DashMap<String, u64>, key: &str, value: u64)
    ensures
        u64_entries(*final(map)) == u64_entries(*old(map)).insert(key@, value),
{
    map.insert(key.to_string(), value);
}

/// `DashMap::get`: the value of the key, if there is one.
#[verifier::external_body]
pub(crate) fn u64_get(map: &DashMap<String, u64>, key: &str) -> (r: Option<u64>)
    ensures
        r == (if u64_entries(*map).contains_key(key@) {
            Some(u64_entries(*map)[key@])
        } else {
            None
        }),
{
    map.get(key).map(|v| *v)
}

/// `DashMap::remove`: the key is gone, other keys are as before.
#[verifier::external_body]
pub(crate) fn u64_remove(map: &mut DashMap<String, u64>, key: &str)
    ensures
        u64_entries(*final(map)) == u64_entries(*old(map)).remove(key@),
{
    map.remove(key);
}

/// What a map from texts to timestamps holds.
pub uninterp spec fn i64_entries(map: DashMap<String, i64>) -> Map<Seq<char>, i64>;

/// `DashMap::new`: an empty map.
#[verifier::external_body]
pub(crate) fn i64_map() -> (r: DashMap<String, i64>)
    ensures
        i64_entries(r) == (Map::<Seq<char>, i64>::empty()),
{
    DashMap::new()
}

/// `DashMap::insert`: the key maps to the value, other keys are as before.
#[verifier::external_body]
pub(crate) fn i64_insert(map: &mut DashMap<String, i64>, key: &str, value: i64)
    ensures
        i64_entries(*final(map)) == i64_entries(*old(map)).insert(key@, value),
{
    map.insert(key.to_string(), value);
}

/// `DashMap::get`: the value of the key, if there is one.
#[verifier::external_body]
pub(crate) fn i64_get(map: &DashMap<String, i64>, key: &str) -> (r: Option<i64>)
    ensures
        r == (if i64_entries(*map).contains_key(key@) {
            Some(i64_entries(*map)[key@])
        } else {
            None
        }),
{
    map.get(key).map(|v| *v)
}

/// `DashMap::remove`: the key is gone, other keys are as before.
#[verifier::external_body]
pub(crate) fn i64_remove(map: &mut DashMap<String, i64>, key: &str)
    ensures
        i64_entries(*final(map)) == i64_entries(*old(map)).remove(key@),
{
    map.remove(key);
}

/// `DashMap::iter`, each entry copied out: every entry once, in no particular order.
#[verifier::external_body]
pub(crate) fn i64_list(map: &DashMap<String, i64>) -> (r: Vec<(String, i64)>)
    ensures
        lists_entries(i64_entries(*map), r@),
{
    map.iter().map(|entry| (entry.key().clone(), *entry.value())).collect()
}

} // verus!
