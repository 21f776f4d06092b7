//! A bounded cache of built indices that evicts the entry used least
//! recently.

use lru::LruCache;
use rustc_hash::FxHashMap;
use std::num::NonZeroUsize;
use std::sync::Arc;
use vstd::prelude::*;

verus! {

/// The hasher that an `LruCache` uses unless it is given another.
#[verifier::external_type_specification]
#[verifier::external_body]
pub struct ExLruHasher(lru::DefaultHasher);

/// A map that holds a bounded number of entries and knows which of them was
/// used least recently.
#[verifier::external_type_specification]
#[verifier::external_body]
#[verifier::reject_recursive_types(K)]
#[verifier::reject_recursive_types(V)]
#[verifier::reject_recursive_types(S)]
pub struct ExLruCache<K, V, S>(LruCache<K, V, S>);

/// A built index as the cache keeps it.
pub struct CachedFSM {
    /// The transition map of every state.
    pub states_to_token_maps: Vec<FxHashMap<u32, u32>>,
    /// The state in which a generation starts.
    pub first_state: u32,
    /// The accepting states.
    pub finals: Vec<u32>,
    /// The fingerprint under which the index is kept.
    pub hash: u64,
}

/// What a `CachedFSM` stands for.
pub struct CachedIndex {
    /// The transition map of every state.
    pub maps: Seq<Map<u32, u32>>,
    /// The state in which a generation starts.
    pub first_state: u32,
    /// The accepting states.
    pub finals: Seq<u32>,
    /// The fingerprint under which the index is kept.
    pub hash: u64,
}

impl View for CachedFSM {
    type V = CachedIndex;

    open spec fn view(&self) -> CachedIndex {
        CachedIndex {
            maps: Seq::new(
                self.states_to_token_maps@.len(),
                |s: int| self.states_to_token_maps@[s]@,
            ),
            first_state: self.first_state,
            finals: self.finals@,
            hash: self.hash,
        }
    }
}

/// The entries of a cache, the one used most recently first.
pub uninterp spec fn cached_entries(cache: LruCache<u64, Arc<CachedFSM>>) -> Seq<(u64, CachedIndex)>;

/// The number of entries that a cache holds at most.
pub uninterp spec fn cache_limit(cache: LruCache<u64, Arc<CachedFSM>>) -> nat;

/// The value of the first entry under `key`, if there is one.
pub open spec fn lookup(entries: Seq<(u64, CachedIndex)>, key: u64) -> Option<CachedIndex>
    decreases entries.len(),
{
    if entries.len() == 0 {
        None
    } else if entries[0].0 == key {
        Some(entries[0].1)
    } else {
        lookup(entries.drop_first(), key)
    }
}

/// The entries whose key is not `key`, in order.
pub open spec fn without(entries: Seq<(u64, CachedIndex)>, key: u64) -> Seq<(u64, CachedIndex)>
    decreases entries.len(),
{
    if entries.len() == 0 {
        Seq::empty()
    } else if entries[0].0 == key {
        without(entries.drop_first(), key)
    } else {
        seq![entries[0]] + without(entries.drop_first(), key)
    }
}

/// The entries after a look at `key`: an entry that was found is now the one
/// used most recently.
pub open spec fn touched(entries: Seq<(u64, CachedIndex)>, key: u64) -> Seq<(u64, CachedIndex)> {
    match lookup(entries, key) {
        Some(value) => seq![(key, value)] + without(entries, key),
        None => entries,
    }
}

/// The entries after `value` was put under `key` into a cache of `limit`
/// entries: the new entry is the one used most recently, an older entry under
/// the same key is gone, and where the cache was full the entry used least
/// recently is gone.
pub open spec fn put_entries(
    entries: Seq<(u64, CachedIndex)>,
    limit: nat,
    key: u64,
    value: CachedIndex,
) -> Seq<(u64, CachedIndex)> {
    let kept = without(entries, key);
    let room = if kept.len() >= limit && limit > 0 {
        kept.take(limit - 1)
    } else {
        kept
    };
    seq![(key, value)] + room
}

/// `LruCache::new` makes an empty cache that holds at most `limit` entries.
#[verifier::external_body]
fn lru_new(limit: usize) -> (cache: LruCache<u64, Arc<CachedFSM>>)
    requires
        limit > 0,
    ensures
        cached_entries(cache) == Seq::<(u64, CachedIndex)>::empty(),
        cache_limit(cache) == limit,
{
    LruCache::new(NonZeroUsize::new(limit).unwrap())
}

/// `LruCache::get` returns the value under `key`, if there is one, and makes
/// that entry the one used most recently.
#[verifier::external_body]
fn lru_get(cache: &mut LruCache<u64, Arc<CachedFSM>>, key: u64) -> (found: Option<Arc<CachedFSM>>)
    ensures
        match found {
            Some(value) => lookup(cached_entries(*old(cache)), key) == Some(value@),
            None => lookup(cached_entries(*old(cache)), key) is None,
        },
        cached_entries(*final(cache)) == touched(cached_entries(*old(cache)), key),
        cache_limit(*final(cache)) == cache_limit(*old(cache)),
{
    cache.get(&key).cloned()
}

/// `LruCache::put` puts `value` under `key` as the entry used most recently.
/// An older entry under `key` is replaced; else, where the cache is full, the
/// entry used least recently is evicted.
#[verifier::external_body]
fn lru_put(cache: &mut LruCache<u64, Arc<CachedFSM>>, key: u64, value: Arc<CachedFSM>)
    ensures
        cached_entries(*final(cache)) == put_entries(
            cached_entries(*old(cache)),
            cache_limit(*old(cache)),
            key,
            value@,
        ),
        cache_limit(*final(cache)) == cache_limit(*old(cache)),
{
    cache.put(key, value);
}

/// What a `ModuleState` stands for.
pub struct CacheView {
    /// The cached indices with their fingerprints, the one used most recently
    /// first.
    pub entries: Seq<(u64, CachedIndex)>,
    /// The number of indices that are kept at most.
    pub limit: nat,
    /// Whether the cache is switched off.
    pub disabled: bool,
}

/// The cache of built indices, with the switch that turns it off.
pub struct ModuleState {
    fsm_cache: LruCache<u64, Arc<CachedFSM>>,
    disable_cache: bool,
}

impl View for ModuleState {
    type V = CacheView;

    closed spec fn view(&self) -> CacheView {
        CacheView {
            entries: cached_entries(self.fsm_cache),
            limit: cache_limit(self.fsm_cache),
            disabled: self.disable_cache,
        }
    }
}

impl CacheView {
    /// What holds of every cache: it keeps at least one index, no more than
    /// its limit, and no two under one fingerprint.
    pub open spec fn wf(self) -> bool {
        &&& self.limit > 0
        &&& self.entries.len() <= self.limit
        &&& forall|i: int, j: int|
            0 <= i < j < self.entries.len() ==>
                (#[trigger] self.entries[i]).0 != (#[trigger] self.entries[j]).0
    }

    /// The index that a lookup of `hash` finds: none where the cache is
    /// switched off.
    pub open spec fn find(self, hash: u64) -> Option<CachedIndex> {
        if self.disabled {
            None
        } else {
            lookup(self.entries, hash)
        }
    }

    /// The cache after a lookup of `hash`.
    pub open spec fn after_lookup(self, hash: u64) -> CacheView {
        if self.disabled {
            self
        } else {
            CacheView { entries: touched(self.entries, hash), ..self }
        }
    }

    /// The cache after `cached_fsm` was handed to it under `cache_key`:
    /// nothing changes where the cache is switched off.
    pub open spec fn after_insert(self, cached_fsm: CachedIndex, cache_key: u64) -> CacheView {
        if self.disabled {
            self
        } else {
            CacheView {
                entries: put_entries(self.entries, self.limit, cache_key, cached_fsm),
                ..self
            }
        }
    }
}

impl ModuleState {
    /// An empty cache that keeps at most `cache_size` indices; with
    /// `disable_cache` it is switched off.
    pub fn new(cache_size: usize, disable_cache: bool) -> (state: ModuleState)
        requires
            cache_size > 0,
        ensures
            state@.wf(),
            state@.entries.len() == 0,
            state@.limit == cache_size,
            state@.disabled == disable_cache,
    {
        ModuleState { fsm_cache: lru_new(cache_size), disable_cache }
    }

    /// Whether the cache is switched off.
    pub fn is_disabled(&self) -> (disabled: bool)
        ensures
            disabled == self@.disabled,
    {
        self.disable_cache
    }
}

/// Looks `hash` up. A switched-off cache finds nothing; else the index found
/// becomes the one used most recently.
pub fn get_cached_fsm(cache: &mut ModuleState, hash: u64) -> (found: Option<Arc<CachedFSM>>)
    ensures
        match found {
            Some(cached_fsm) => old(cache)@.find(hash) == Some(cached_fsm@),
            None => old(cache)@.find(hash) is None,
        },
        final(cache)@ == old(cache)@.after_lookup(hash),
        old(cache)@.wf() ==> final(cache)@.wf(),
{
    proof {
        if cache@.wf() {
            lemma_lookup_keeps_order(cache@, hash);
        }
    }
    if cache.disable_cache {
        return None;
    }
    lru_get(&mut cache.fsm_cache, hash)
}

/// Hands `cached_fsm` to the cache under `cache_key`. A switched-off cache
/// drops it.
pub fn insert_fsm_to_cache(cache: &mut ModuleState, cached_fsm: CachedFSM, cache_key: u64)
    ensures
        final(cache)@ == old(cache)@.after_insert(cached_fsm@, cache_key),
        old(cache)@.wf() ==> final(cache)@.wf(),
{
    proof {
        if cache@.wf() {
            lemma_insert_keeps_order(cache@, cached_fsm@, cache_key);
        }
    }
    if cache.disable_cache {
        return ;
    }
    lru_put(&mut cache.fsm_cache, cache_key, Arc::new(cached_fsm));
}

/// An index that was handed to the cache is found under its key.
pub proof fn lemma_insert_then_find(cache: CacheView, cached_fsm: CachedIndex, cache_key: u64)
    requires
        !cache.disabled,
    ensures
        cache.after_insert(cached_fsm, cache_key).find(cache_key) == Some(cached_fsm),
{
}

/// A lookup does not change what a lookup finds.
pub proof fn lemma_lookup_keeps(cache: CacheView, hash: u64, other: u64)
    ensures
        cache.after_lookup(hash).find(other) == cache.find(other),
{
    if !cache.disabled && lookup(cache.entries, hash) is Some {
        lemma_lookup_without(cache.entries, hash, other);
        let rest = without(cache.entries, hash);
        let front = seq![(hash, lookup(cache.entries, hash)->0)];
        assert((front + rest).drop_first() =~= rest);
    }
}

/// Taking the entries under one key away leaves every other key as it was.
proof fn lemma_lookup_without(entries: Seq<(u64, CachedIndex)>, key: u64, other: u64)
    ensures
        lookup(without(entries, key), other) == (if other == key {
            None
        } else {
            lookup(entries, other)
        }),
    decreases entries.len(),
{
    if entries.len() > 0 {
        lemma_lookup_without(entries.drop_first(), key, other);
        if entries[0].0 != key {
            let rest = without(entries.drop_first(), key);
            assert((seq![entries[0]] + rest).drop_first() =~= rest);
        }
    }
}

/// What is left when the entries under one key are taken away: entries of
/// other keys, in the order in which they stood, and one fewer where the key
/// was there.
proof fn lemma_without(entries: Seq<(u64, CachedIndex)>, key: u64)
    requires
        forall|i: int, j: int|
            0 <= i < j < entries.len() ==> (#[trigger] entries[i]).0 != (#[trigger] entries[j]).0,
    ensures
        without(entries, key).len() <= entries.len(),
        lookup(entries, key) is Some ==> without(entries, key).len() < entries.len(),
        forall|i: int| 0 <= i < without(entries, key).len() ==> (#[trigger] without(entries, key)[i]).0
            != key && entries.contains(without(entries, key)[i]),
        forall|i: int, j: int|
            0 <= i < j < without(entries, key).len() ==>
                (#[trigger] without(entries, key)[i]).0 != (#[trigger] without(entries, key)[j]).0,
    decreases entries.len(),
{
    if entries.len() > 0 {
        let rest = entries.drop_first();
        assert forall|i: int, j: int| 0 <= i < j < rest.len() implies
            (#[trigger] rest[i]).0 != (#[trigger] rest[j]).0 by {
            assert(rest[i] == entries[i + 1]);
            assert(rest[j] == entries[j + 1]);
        }
        lemma_without(rest, key);
        let kept = without(rest, key);
        assert forall|i: int| 0 <= i < kept.len() implies entries.contains(#[trigger] kept[i])
            && kept[i].0 != entries[0].0 by {
            let at = choose|at: int| 0 <= at < rest.len() && rest[at] == kept[i];
            assert(entries[at + 1] == kept[i]);
        }
        if entries[0].0 != key {
            let all = without(entries, key);
            assert forall|i: int| 0 <= i < all.len() implies (#[trigger] all[i]).0 != key
                && entries.contains(all[i]) by {
                if i == 0 {
                    assert(entries[0] == all[0]);
                } else {
                    assert(all[i] == kept[i - 1]);
                }
            }
            assert forall|i: int, j: int| 0 <= i < j < all.len() implies
                (#[trigger] all[i]).0 != (#[trigger] all[j]).0 by {
                assert(all[j] == kept[j - 1]);
                if i > 0 {
                    assert(all[i] == kept[i - 1]);
                }
            }
        }
    }
}

/// A lookup leaves a cache in order.
pub proof fn lemma_lookup_keeps_order(cache: CacheView, hash: u64)
    requires
        cache.wf(),
    ensures
        cache.after_lookup(hash).wf(),
{
    lemma_without(cache.entries, hash);
    if !cache.disabled && lookup(cache.entries, hash) is Some {
        let kept = without(cache.entries, hash);
        let after = cache.after_lookup(hash).entries;
        assert forall|i: int, j: int| 0 <= i < j < after.len() implies
            (#[trigger] after[i]).0 != (#[trigger] after[j]).0 by {
            assert(after[j] == kept[j - 1]);
            if i > 0 {
                assert(after[i] == kept[i - 1]);
            }
        }
    }
}

/// An insertion leaves a cache in order: it never holds more than its limit.
pub proof fn lemma_insert_keeps_order(cache: CacheView, cached_fsm: CachedIndex, cache_key: u64)
    requires
        cache.wf(),
    ensures
        cache.after_insert(cached_fsm, cache_key).wf(),
{
    lemma_without(cache.entries, cache_key);
    if !cache.disabled {
        let kept = without(cache.entries, cache_key);
        let room = if kept.len() >= cache.limit {
            kept.take(cache.limit - 1)
        } else {
            kept
        };
        let after = cache.after_insert(cached_fsm, cache_key).entries;
        assert(after == seq![(cache_key, cached_fsm)] + room);
        assert forall|i: int, j: int| 0 <= i < j < after.len() implies
            (#[trigger] after[i]).0 != (#[trigger] after[j]).0 by {
            assert(after[j] == kept[j - 1]);
            if i > 0 {
                assert(after[i] == kept[i - 1]);
            }
        }
    }
}

} // verus!
