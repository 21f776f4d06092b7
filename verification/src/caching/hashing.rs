//! The fingerprint under which a built index is cached: a hash of the
//! vocabulary's length, of its first entries and of the pattern.

use crate::vocab::{TokenVocabulary, Vocabulary};
use std::collections::hash_map::DefaultHasher;
use std::hash::Hasher;
use vstd::bytes::{spec_u32_to_le_bytes, spec_u64_to_le_bytes, u32_to_le_bytes, u64_to_le_bytes};
use vstd::prelude::*;
use vstd::std_specs::hash::DefaultHasherAdditionalSpecFns;
use vstd::utf8::encode_utf8;

verus! {

/// The number of entries, counted from the front, that the fingerprint
/// covers.
pub const HASHED_ENTRIES: usize = 100;

/// What is fed to the hasher for one entry: the token's bytes, the number of
/// its ids, and each id.
pub open spec fn entry_writes(entry: (Seq<char>, Seq<u32>)) -> Seq<Seq<u8>> {
    seq![encode_utf8(entry.0), spec_u64_to_le_bytes(entry.1.len() as u64)] + Seq::new(
        entry.1.len(),
        |j: int| spec_u32_to_le_bytes(entry.1[j]),
    )
}

/// What is fed to the hasher for the first `n` entries.
pub open spec fn head_writes(entries: Seq<(Seq<char>, Seq<u32>)>, n: nat) -> Seq<Seq<u8>>
    decreases n,
{
    if n == 0 {
        Seq::empty()
    } else {
        head_writes(entries, (n - 1) as nat) + entry_writes(entries[n - 1])
    }
}

/// The number of entries that the fingerprint of a vocabulary covers.
pub open spec fn hashed_entries(vocabulary: Vocabulary) -> nat {
    if vocabulary.entries.len() <= HASHED_ENTRIES {
        vocabulary.entries.len()
    } else {
        HASHED_ENTRIES as nat
    }
}

/// What is fed to the hasher for a vocabulary: its length, then its first
/// entries.
pub open spec fn vocabulary_writes(vocabulary: Vocabulary) -> Seq<Seq<u8>> {
    seq![spec_u64_to_le_bytes(vocabulary.entries.len() as u64)] + head_writes(
        vocabulary.entries,
        hashed_entries(vocabulary),
    )
}

/// The hash of a vocabulary.
pub open spec fn vocabulary_hash(vocabulary: Vocabulary) -> u64 {
    DefaultHasher::spec_finish(vocabulary_writes(vocabulary))
}

/// The fingerprint of a pattern and a vocabulary.
pub open spec fn fsm_cache_key(pattern: Seq<char>, vocabulary: Vocabulary) -> u64 {
    DefaultHasher::spec_finish(
        seq![spec_u64_to_le_bytes(vocabulary_hash(vocabulary)), encode_utf8(pattern)],
    )
}

/// Hashes the length of the vocabulary and its first `HASHED_ENTRIES`
/// entries, tokens and ids, in the vocabulary's order.
pub fn hash_token_vocabulary(vocabulary: &TokenVocabulary) -> (hash: u64)
    ensures
        hash == vocabulary_hash(vocabulary@),
{
    let mut hasher = DefaultHasher::new();
    let length = vocabulary.len();
    hasher.write(u64_to_le_bytes(length as u64).as_slice());
    let head = if length <= HASHED_ENTRIES {
        length
    } else {
        HASHED_ENTRIES
    };
    let ghost entries = vocabulary@.entries;
    let mut i: usize = 0;
    while i < head
        invariant
            i <= head,
            head == hashed_entries(vocabulary@),
            entries == vocabulary@.entries,
            hasher@ == seq![spec_u64_to_le_bytes(entries.len() as u64)] + head_writes(
                entries,
                i as nat,
            ),
        decreases head - i,
    {
        let token = vocabulary.token(i);
        let ids = vocabulary.ids(i);
        let ghost before = hasher@;
        hasher.write(token.as_str().as_bytes());
        hasher.write(u64_to_le_bytes(ids.len() as u64).as_slice());
        let mut j: usize = 0;
        while j < ids.len()
            invariant
                j <= ids@.len(),
                ids@ == entries[i as int].1,
                hasher@ == before + entry_writes(entries[i as int]).take(2 + j),
            decreases ids@.len() - j,
        {
            hasher.write(u32_to_le_bytes(ids[j]).as_slice());
            assert(entry_writes(entries[i as int]).take(2 + j + 1) =~= entry_writes(
                entries[i as int],
            ).take(2 + j).push(spec_u32_to_le_bytes(ids@[j as int])));
            j = j + 1;
        }
        assert(entry_writes(entries[i as int]).take(2 + j) =~= entry_writes(entries[i as int]));
        i = i + 1;
    }
    hasher.finish()
}

/// The fingerprint of `pattern` and `vocabulary`: a hash of the vocabulary's
/// hash and of the pattern.
pub fn get_fsm_cache_key(pattern: &str, vocabulary: &TokenVocabulary) -> (key: u64)
    ensures
        key == fsm_cache_key(pattern@, vocabulary@),
{
    let vocab_hash = hash_token_vocabulary(vocabulary);
    let mut hasher = DefaultHasher::new();
    hasher.write(u64_to_le_bytes(vocab_hash).as_slice());
    hasher.write(pattern.as_bytes());
    assert(hasher@ =~= seq![spec_u64_to_le_bytes(vocab_hash), encode_utf8(pattern@)]);
    hasher.finish()
}

/// The same pattern and the same vocabulary entries have the same
/// fingerprint.
pub proof fn lemma_fingerprint_deterministic(
    pattern: Seq<char>,
    vocabulary: Vocabulary,
    other_pattern: Seq<char>,
    other_vocabulary: Vocabulary,
)
    requires
        pattern == other_pattern,
        vocabulary.entries == other_vocabulary.entries,
    ensures
        fsm_cache_key(pattern, vocabulary) == fsm_cache_key(other_pattern, other_vocabulary),
        vocabulary_hash(vocabulary) == vocabulary_hash(other_vocabulary),
{
}

/// What is fed to the hasher for the first entries depends on those entries
/// alone.
proof fn lemma_head_writes(
    entries: Seq<(Seq<char>, Seq<u32>)>,
    other_entries: Seq<(Seq<char>, Seq<u32>)>,
    n: nat,
)
    requires
        forall|i: int| 0 <= i < n ==> entries[i] == other_entries[i],
    ensures
        head_writes(entries, n) == head_writes(other_entries, n),
    decreases n,
{
    if n > 0 {
        lemma_head_writes(entries, other_entries, (n - 1) as nat);
    }
}

/// The fingerprint is approximate: two vocabularies of the same length that
/// agree in their first `HASHED_ENTRIES` entries have the same fingerprint
/// under the same pattern, whatever their other entries are.
pub proof fn lemma_fingerprint_covers_head(
    pattern: Seq<char>,
    vocabulary: Vocabulary,
    other_vocabulary: Vocabulary,
)
    requires
        vocabulary.entries.len() == other_vocabulary.entries.len(),
        forall|i: int|
            0 <= i < hashed_entries(vocabulary) ==> vocabulary.entries[i]
                == other_vocabulary.entries[i],
    ensures
        vocabulary_hash(vocabulary) == vocabulary_hash(other_vocabulary),
        fsm_cache_key(pattern, vocabulary) == fsm_cache_key(pattern, other_vocabulary),
{
    lemma_head_writes(vocabulary.entries, other_vocabulary.entries, hashed_entries(vocabulary));
}

} // verus!
