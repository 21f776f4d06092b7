//! The settings that the process environment gives: how many indices the
//! cache keeps, whether the cache is switched off, and how many threads a
//! build may use.

use crate::text::chars_of;
use vstd::prelude::*;

verus! {

/// The number of indices that the cache keeps unless the environment says
/// otherwise.
pub const DEFAULT_CACHE_SIZE: usize = 100;

/// The name of the variable that sets the size of the cache.
pub const CACHE_SIZE_VARIABLE: &'static str = "FSM_CACHE_SIZE";

/// The name of the variable that switches the cache off.
pub const DISABLE_CACHE_VARIABLE: &'static str = "DISABLE_CACHE";

/// The name of the variable that sets the number of threads.
pub const NUM_THREADS_VARIABLE: &'static str = "FASTER_OUTLINES_NUM_THREADS";

/// Whether `c` is a decimal digit.
pub open spec fn is_digit(c: char) -> bool {
    48 <= c as u32 <= 57
}

/// The number that the decimal digits of `digits` write.
pub open spec fn decimal_value(digits: Seq<char>) -> nat
    decreases digits.len(),
{
    if digits.len() == 0 {
        0
    } else {
        decimal_value(digits.drop_last()) * 10 + (digits.last() as u32 - 48) as nat
    }
}

/// The digits of a number in text: the text without a plus sign at its
/// front.
pub open spec fn unsigned_part(text: Seq<char>) -> Seq<char> {
    if text.len() > 0 && text[0] == '+' {
        text.drop_first()
    } else {
        text
    }
}

/// The number that `text` writes: decimal digits, at least one, after at
/// most one plus sign, of a value that a `usize` holds.
pub open spec fn parsed_size(text: Seq<char>) -> Option<usize> {
    let digits = unsigned_part(text);
    if digits.len() > 0 && (forall|i: int| 0 <= i < digits.len() ==> is_digit(#[trigger] digits[i]))
        && decimal_value(digits) <= usize::MAX {
        Some(decimal_value(digits) as usize)
    } else {
        None
    }
}

/// More digits do not make a number smaller.
proof fn lemma_decimal_value_grows(digits: Seq<char>, upto: int)
    requires
        0 <= upto <= digits.len(),
        forall|i: int| 0 <= i < digits.len() ==> is_digit(#[trigger] digits[i]),
    ensures
        decimal_value(digits.take(upto)) <= decimal_value(digits),
    decreases digits.len() - upto,
{
    if upto < digits.len() {
        assert(digits.take(upto + 1).drop_last() =~= digits.take(upto));
        lemma_decimal_value_grows(digits, upto + 1);
    } else {
        assert(digits.take(upto) =~= digits);
    }
}

/// Reads a number as `parsed_size` describes.
pub fn parse_size(text: &str) -> (size: Option<usize>)
    ensures
        size == parsed_size(text@),
{
    let chars = chars_of(text);
    let start: usize = if chars.len() > 0 && chars[0] == '+' {
        1
    } else {
        0
    };
    let ghost digits = unsigned_part(chars@);
    assert(digits =~= chars@.skip(start as int));
    if start == chars.len() {
        return None;
    }
    let mut value: usize = 0;
    let mut i: usize = start;
    assert(digits.take(0) =~= Seq::empty());
    while i < chars.len()
        invariant
            start <= i <= chars@.len(),
            chars@ == text@,
            digits == unsigned_part(chars@),
            digits == chars@.skip(start as int),
            forall|j: int| 0 <= j < i - start ==> is_digit(#[trigger] digits[j]),
            value == decimal_value(digits.take(i - start)),
        decreases chars@.len() - i,
    {
        let code = chars[i] as u32;
        assert(digits[i - start] == chars@[i as int]);
        if code < 48 || code > 57 {
            return None;
        }
        let digit = (code - 48) as usize;
        assert(digits.take(i + 1 - start).drop_last() =~= digits.take(i - start));
        if value > (usize::MAX - digit) / 10 {
            proof {
                assert(decimal_value(digits.take(i + 1 - start)) == value * 10 + digit);
                if forall|j: int| 0 <= j < digits.len() ==> is_digit(#[trigger] digits[j]) {
                    lemma_decimal_value_grows(digits, i + 1 - start);
                }
            }
            return None;
        }
        value = value * 10 + digit;
        i = i + 1;
    }
    assert(digits.take(i - start) =~= digits);
    Some(value)
}

/// The size of the cache that the environment asks for: the number that the
/// variable writes where it is set to a positive number, and the default in
/// every other case.
pub open spec fn cache_size_of(value: Option<Seq<char>>) -> usize {
    match value {
        Some(text) => match parsed_size(text) {
            Some(size) => if size > 0 {
                size
            } else {
                DEFAULT_CACHE_SIZE
            },
            None => DEFAULT_CACHE_SIZE,
        },
        None => DEFAULT_CACHE_SIZE,
    }
}

/// The size of the cache, from the value of its variable.
pub fn cache_size_from(value: Option<&str>) -> (size: usize)
    ensures
        size > 0,
        size == cache_size_of(
            match value {
                Some(text) => Some(text@),
                None => None,
            },
        ),
{
    match value {
        Some(text) => match parse_size(text) {
            Some(size) => if size > 0 {
                size
            } else {
                DEFAULT_CACHE_SIZE
            },
            None => DEFAULT_CACHE_SIZE,
        },
        None => DEFAULT_CACHE_SIZE,
    }
}

/// `c` in lower case where it is an ASCII letter in upper case, and `c`
/// itself else.
pub open spec fn lowered(c: char) -> char {
    if 65 <= c as u32 <= 90 {
        ((c as u32) + 32) as char
    } else {
        c
    }
}

/// Whether `text` reads as `word` does when the case of ASCII letters is left
/// aside. `word` is in lower case.
pub open spec fn reads_as(text: Seq<char>, word: Seq<char>) -> bool {
    text.len() == word.len() && forall|i: int| 0 <= i < text.len() ==> lowered(#[trigger] text[i])
        == word[i]
}

/// Whether a value of the variable switches the cache off: it reads as "1",
/// "true" or "yes".
pub open spec fn is_truthy(text: Seq<char>) -> bool {
    reads_as(text, seq!['1']) || reads_as(text, seq!['t', 'r', 'u', 'e']) || reads_as(
        text,
        seq!['y', 'e', 's'],
    )
}

/// `c` in lower case where it is an ASCII letter in upper case.
fn lower(c: char) -> (r: char)
    ensures
        r == lowered(c),
{
    let code = c as u32;
    if 65 <= code && code <= 90 {
        ((code + 32) as u8) as char
    } else {
        c
    }
}

/// Whether `text` reads as `word` does when the case of ASCII letters is left
/// aside.
fn matches_word(text: &Vec<char>, word: &Vec<char>) -> (r: bool)
    ensures
        r == reads_as(text@, word@),
{
    if text.len() != word.len() {
        return false;
    }
    let mut i: usize = 0;
    while i < text.len()
        invariant
            i <= text@.len(),
            text@.len() == word@.len(),
            forall|j: int| 0 <= j < i ==> lowered(#[trigger] text@[j]) == word@[j],
        decreases text@.len() - i,
    {
        if lower(text[i]) != word[i] {
            return false;
        }
        i = i + 1;
    }
    true
}

/// Whether the cache is switched off, from the value of its variable: it is
/// where the variable is set to "1", "true" or "yes" in any case.
pub fn disable_cache_from(value: Option<&str>) -> (disabled: bool)
    ensures
        disabled == match value {
            Some(text) => is_truthy(text@),
            None => false,
        },
{
    match value {
        Some(text) => {
            let chars = chars_of(text);
            let one: Vec<char> = vec!['1'];
            let yes: Vec<char> = vec!['y', 'e', 's'];
            let truth: Vec<char> = vec!['t', 'r', 'u', 'e'];
            assert(one@ =~= seq!['1']);
            assert(yes@ =~= seq!['y', 'e', 's']);
            assert(truth@ =~= seq!['t', 'r', 'u', 'e']);
            matches_word(&chars, &one) || matches_word(&chars, &truth) || matches_word(&chars, &yes)
        },
        None => false,
    }
}

/// The number of threads that a build may use unless the environment says
/// otherwise.
pub const DEFAULT_NUM_THREADS: usize = 1;

/// The number of threads that the environment asks for: the number that the
/// variable writes where it is set to a positive number, and the default in
/// every other case.
pub open spec fn num_threads_of(value: Option<Seq<char>>) -> usize {
    match value {
        Some(text) => match parsed_size(text) {
            Some(size) => if size > 0 {
                size
            } else {
                DEFAULT_NUM_THREADS
            },
            None => DEFAULT_NUM_THREADS,
        },
        None => DEFAULT_NUM_THREADS,
    }
}

/// The number of threads that a build may use, from the value of its
/// variable.
pub fn num_threads_from(value: Option<&str>) -> (threads: usize)
    ensures
        threads > 0,
        threads == num_threads_of(
            match value {
                Some(text) => Some(text@),
                None => None,
            },
        ),
{
    match value {
        Some(text) => match parse_size(text) {
            Some(size) => if size > 0 {
                size
            } else {
                DEFAULT_NUM_THREADS
            },
            None => DEFAULT_NUM_THREADS,
        },
        None => DEFAULT_NUM_THREADS,
    }
}

} // verus!
