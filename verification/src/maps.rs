//! The operations on the maps and sets of `rustc_hash` that the library
//! relies on.

use rustc_hash::{FxHashMap, FxHashSet};
use vstd::prelude::*;

verus! {

/// The hasher of `rustc_hash`'s maps; it only ever travels inside a map.
#[verifier::external_type_specification]
#[verifier::external_body]
pub struct ExFxBuildHasher(rustc_hash::FxBuildHasher);

/// An empty map.
pub(crate) fn new_map<V>() -> (map: FxHashMap<u32, V>)
    ensures
        map@ == Map::<u32, V>::empty(),
{
    FxHashMap::default()
}

/// An empty map from texts to positions.
pub fn new_text_map() -> (map: FxHashMap<String, usize>)
    ensures
        map@ == Map::<String, usize>::empty(),
{
    FxHashMap::default()
}

/// `HashMap::insert` of std on a map that hashes with `rustc_hash`: the map
/// afterwards holds `value` under `key` and is otherwise unchanged; the value
/// that `key` had before, if any, is returned.
#[verifier::external_body]
pub(crate) fn map_insert<V>(map: &mut FxHashMap<u32, V>, key: u32, value: V) -> (previous: Option<V>)
    ensures
        final(map)@ == old(map)@.insert(key, value),
        previous == (if old(map)@.contains_key(key) {
            Some(old(map)@[key])
        } else {
            None
        }),
{
    map.insert(key, value)
}

/// `HashMap::get` of std on a map that hashes with `rustc_hash`: the value
/// held under `key`, if any.
#[verifier::external_body]
pub(crate) fn map_get<'a, V>(map: &'a FxHashMap<u32, V>, key: u32) -> (value: Option<&'a V>)
    ensures
        value == (if map@.contains_key(key) {
            Some(&map@[key])
        } else {
            None
        }),
{
    map.get(&key)
}

/// `HashMap::keys` of std on a map that hashes with `rustc_hash`, collected:
/// every key of the map once, in the order in which the map is walked.
#[verifier::external_body]
pub(crate) fn map_keys<V>(map: &FxHashMap<u32, V>) -> (keys: Vec<u32>)
    ensures
        keys@.no_duplicates(),
        forall|k: u32| keys@.contains(k) <==> map@.contains_key(k),
{
    map.keys().copied().collect()
}

/// Hands out the entries of a transition map, each once, in the order in
/// which `HashMap::into_iter` of std walks them.
#[verifier::external_body]
pub(crate) fn transition_entries(map: FxHashMap<(u32, u32), u32>) -> (out: Vec<((u32, u32), u32)>)
    ensures
        forall|i: int|
            0 <= i < out@.len() ==> map@.contains_key(#[trigger] out@[i].0) && map@[out@[i].0]
                == out@[i].1,
        forall|k: (u32, u32)|
            map@.contains_key(k) ==> exists|i: int| 0 <= i < out@.len() && #[trigger] out@[i].0 == k,
        forall|i: int, j: int|
            0 <= i < j < out@.len() ==> #[trigger] out@[i].0 != #[trigger] out@[j].0,
{
    map.into_iter().collect()
}

/// Hands out the entries of a map from texts to numbers, each once, in the
/// order in which `HashMap::into_iter` of std walks them. No two keys are the
/// same text.
#[verifier::external_body]
pub(crate) fn text_entries(map: FxHashMap<String, u32>) -> (out: Vec<(String, u32)>)
    ensures
        forall|i: int|
            0 <= i < out@.len() ==> map@.contains_key(#[trigger] out@[i].0) && map@[out@[i].0]
                == out@[i].1,
        forall|k: String|
            map@.contains_key(k) ==> exists|i: int| 0 <= i < out@.len() && #[trigger] out@[i].0 == k,
        forall|i: int, j: int|
            0 <= i < j < out@.len() ==> (#[trigger] out@[i]).0@ != (#[trigger] out@[j]).0@,
{
    map.into_iter().collect()
}

/// Hands out the entries of a map from texts to lists of numbers, each once,
/// in the order in which `HashMap::into_iter` of std walks them. No two keys
/// are the same text.
#[verifier::external_body]
pub(crate) fn list_entries(map: FxHashMap<String, Vec<u32>>) -> (out: Vec<(String, Vec<u32>)>)
    ensures
        forall|i: int|
            0 <= i < out@.len() ==> map@.contains_key(#[trigger] out@[i].0) && map@[out@[i].0]
                == out@[i].1,
        forall|k: String|
            map@.contains_key(k) ==> exists|i: int| 0 <= i < out@.len() && #[trigger] out@[i].0 == k,
        forall|i: int, j: int|
            0 <= i < j < out@.len() ==> (#[trigger] out@[i]).0@ != (#[trigger] out@[j]).0@,
{
    map.into_iter().collect()
}

/// `HashSet::contains` of std on a set of texts that hashes with
/// `rustc_hash`: whether the set holds a text that reads as `text` does.
#[verifier::external_body]
pub(crate) fn set_contains(set: &FxHashSet<String>, text: &String) -> (found: bool)
    ensures
        found == (exists|member: String| #[trigger] set@.contains(member) && member@ == text@),
{
    set.contains(text)
}

/// `HashMap::get` of std on a map from texts to positions that hashes with
/// `rustc_hash`: the position held under the key that reads as `key` does,
/// if there is such a key.
#[verifier::external_body]
pub(crate) fn text_get(map: &FxHashMap<String, usize>, key: &String) -> (position: Option<usize>)
    ensures
        match position {
            Some(at) => exists|k: String| #[trigger] map@.contains_key(k) && k@ == key@ && map@[k] == at,
            None => forall|k: String| #[trigger] map@.contains_key(k) ==> k@ != key@,
        },
{
    map.get(key).copied()
}

/// `HashMap::insert` of std on a map from texts to positions that hashes
/// with `rustc_hash`, for a key that the map does not hold yet: the map
/// afterwards holds `position` under `key` and is otherwise unchanged.
#[verifier::external_body]
pub(crate) fn text_insert(map: &mut FxHashMap<String, usize>, key: String, position: usize)
    requires
        forall|k: String| #[trigger] old(map)@.contains_key(k) ==> k@ != key@,
    ensures
        final(map)@ == old(map)@.insert(key, position),
{
    map.insert(key, position);
}

} // verus!
