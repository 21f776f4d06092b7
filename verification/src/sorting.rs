//! The order of texts by their UTF-8 bytes, and lists sorted by it.

use std::cmp::Ordering;
use vstd::prelude::*;
use vstd::string::StringSliceAdditionalSpecFns;
use vstd::utf8::encode_utf8;

verus! {

/// Whether `a` comes before `b`: at the first place where the two differ `a`
/// has the smaller byte, or `a` ends there and `b` goes on.
pub open spec fn bytes_before(a: Seq<u8>, b: Seq<u8>) -> bool
    decreases a.len(),
{
    if b.len() == 0 {
        false
    } else if a.len() == 0 {
        true
    } else if a[0] != b[0] {
        a[0] < b[0]
    } else {
        bytes_before(a.drop_first(), b.drop_first())
    }
}

/// Whether the text `a` comes before the text `b` by their UTF-8 bytes.
pub open spec fn text_before(a: Seq<char>, b: Seq<char>) -> bool {
    bytes_before(encode_utf8(a), encode_utf8(b))
}

/// Once two byte strings are known to agree up to a place, what is left
/// decides which comes first.
proof fn lemma_bytes_before_skip(a: Seq<u8>, b: Seq<u8>, upto: int)
    requires
        0 <= upto <= a.len(),
        upto <= b.len(),
        forall|i: int| 0 <= i < upto ==> a[i] == b[i],
    ensures
        bytes_before(a, b) == bytes_before(a.skip(upto), b.skip(upto)),
    decreases upto,
{
    if upto > 0 {
        assert(a.drop_first().skip(upto - 1) =~= a.skip(upto));
        assert(b.drop_first().skip(upto - 1) =~= b.skip(upto));
        lemma_bytes_before_skip(a.drop_first(), b.drop_first(), upto - 1);
    } else {
        assert(a.skip(0) =~= a);
        assert(b.skip(0) =~= b);
    }
}

/// How two texts stand to each other by their UTF-8 bytes: -1 where `a`
/// comes first, 1 where `b` does, and 0 where the two have the same bytes.
pub fn text_order(a: &String, b: &String) -> (sign: i8)
    ensures
        sign == -1 || sign == 0 || sign == 1,
        sign == -1 ==> text_before(a@, b@),
        sign == 1 ==> text_before(b@, a@),
        sign == 0 ==> encode_utf8(a@) == encode_utf8(b@),
{
    let left = a.as_str().as_bytes();
    let right = b.as_str().as_bytes();
    let mut i: usize = 0;
    while i < left.len() && i < right.len()
        invariant
            i <= left@.len(),
            i <= right@.len(),
            left@ == encode_utf8(a@),
            right@ == encode_utf8(b@),
            forall|j: int| 0 <= j < i ==> left@[j] == right@[j],
        decreases left@.len() - i,
    {
        if left[i] < right[i] {
            proof {
                lemma_bytes_before_skip(left@, right@, i as int);
            }
            return -1;
        }
        if left[i] > right[i] {
            proof {
                lemma_bytes_before_skip(right@, left@, i as int);
            }
            return 1;
        }
        i = i + 1;
    }
    proof {
        lemma_bytes_before_skip(left@, right@, i as int);
        lemma_bytes_before_skip(right@, left@, i as int);
    }
    if i < right.len() {
        -1
    } else if i < left.len() {
        1
    } else {
        assert(left@ =~= right@);
        0
    }
}

/// How two texts stand to each other by their UTF-8 bytes.
pub fn compare_texts(a: &String, b: &String) -> (order: Ordering)
    ensures
        match order {
            Ordering::Less => text_before(a@, b@),
            Ordering::Greater => text_before(b@, a@),
            Ordering::Equal => encode_utf8(a@) == encode_utf8(b@),
        },
{
    let sign = text_order(a, b);
    if sign < 0 {
        Ordering::Less
    } else if sign > 0 {
        Ordering::Greater
    } else {
        Ordering::Equal
    }
}

/// No entry stands after one that its text comes before.
pub open spec fn is_sorted_by_text<V>(entries: Seq<(String, V)>) -> bool {
    forall|i: int, j: int|
        0 <= i < j < entries.len() ==> !text_before(
            (#[trigger] entries[j]).0@,
            (#[trigger] entries[i]).0@,
        )
}

/// `slice::sort_by` of std with `compare_texts` on the texts: the entries
/// are the same as before, and stand in ascending order of their texts.
#[verifier::external_body]
pub(crate) fn sort_by_text<V>(entries: &mut Vec<(String, V)>)
    ensures
        final(entries)@.to_multiset() == old(entries)@.to_multiset(),
        is_sorted_by_text(final(entries)@),
{
    entries.sort_by(|a, b| compare_texts(&a.0, &b.0));
}

/// Entries in another order are still the same entries: each is one of those
/// before, each of those before is one of them, and where no two read the same
/// before, no two read the same now.
pub proof fn lemma_same_entries<V>(before: Seq<(String, V)>, after: Seq<(String, V)>)
    requires
        after.to_multiset() == before.to_multiset(),
        forall|i: int, j: int|
            0 <= i < j < before.len() ==> (#[trigger] before[i]).0@ != (#[trigger] before[j]).0@,
    ensures
        after.len() == before.len(),
        forall|i: int| 0 <= i < after.len() ==> before.contains(#[trigger] after[i]),
        forall|i: int| 0 <= i < before.len() ==> after.contains(#[trigger] before[i]),
        forall|i: int, j: int|
            0 <= i < j < after.len() ==> (#[trigger] after[i]).0@ != (#[trigger] after[j]).0@,
{
    vstd::seq_lib::to_multiset_len(after);
    vstd::seq_lib::to_multiset_len(before);
    assert forall|i: int| 0 <= i < after.len() implies before.contains(#[trigger] after[i]) by {
        assert(after.contains(after[i]));
        vstd::seq_lib::to_multiset_contains(after, after[i]);
        vstd::seq_lib::to_multiset_contains(before, after[i]);
    }
    assert forall|i: int| 0 <= i < before.len() implies after.contains(#[trigger] before[i]) by {
        assert(before.contains(before[i]));
        vstd::seq_lib::to_multiset_contains(before, before[i]);
        vstd::seq_lib::to_multiset_contains(after, before[i]);
    }
    assert(before.no_duplicates());
    before.lemma_multiset_has_no_duplicates();
    after.lemma_multiset_has_no_duplicates_conv();
    assert forall|i: int, j: int| 0 <= i < j < after.len() implies
        (#[trigger] after[i]).0@ != (#[trigger] after[j]).0@ by {
        assert(before.contains(after[i]));
        assert(before.contains(after[j]));
        let a = choose|a: int| 0 <= a < before.len() && before[a] == after[i];
        let b = choose|b: int| 0 <= b < before.len() && before[b] == after[j];
        assert(after[i] != after[j]);
        if a < b {
            assert(before[a].0@ != before[b].0@);
        } else {
            assert(before[b].0@ != before[a].0@);
        }
    }
}

} // verus!
