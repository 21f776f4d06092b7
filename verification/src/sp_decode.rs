//! The byte-level alphabet of byte-pair tokenizers, in which every byte is
//! written as one printable character, and the decoding of tokens written in
//! it.

use crate::text::chars_of;
use vstd::prelude::*;
use vstd::utf8::{
    decode_utf8, encode_utf8, encode_utf8_decode_utf8, encode_utf8_valid_utf8, is_ascii_chars,
    is_ascii_chars_encode_utf8, valid_utf8,
};

verus! {

/// The character that marks a word boundary in a token.
pub const WORD_BOUNDARY: char = '\u{2581}';

/// The code of the character that stands for `byte`: a printable byte stands
/// for itself, and the others follow from code 256 on in ascending order.
pub open spec fn unicode_code(byte: u8) -> u32 {
    if 33 <= byte <= 126 || 161 <= byte <= 172 || 174 <= byte {
        byte as u32
    } else if byte <= 32 {
        (256 + byte) as u32
    } else if byte <= 160 {
        (162 + byte) as u32
    } else {
        323
    }
}

/// The byte that `c` stands for, if it stands for one.
pub open spec fn byte_of(c: char) -> Option<u8> {
    let code = c as u32;
    if 33 <= code <= 126 || 161 <= code <= 172 || 174 <= code <= 255 {
        Some(code as u8)
    } else if 256 <= code <= 288 {
        Some((code - 256) as u8)
    } else if 289 <= code <= 322 {
        Some((code - 162) as u8)
    } else if code == 323 {
        Some(173u8)
    } else {
        None
    }
}

/// Every byte is the byte of the character that stands for it.
pub proof fn lemma_bytes_round_trip(byte: u8, c: char)
    requires
        c as u32 == unicode_code(byte),
    ensures
        byte_of(c) == Some(byte),
{
}

/// A character that stands for a byte is the character of that byte.
pub proof fn lemma_unicode_round_trip(c: char)
    requires
        byte_of(c) is Some,
    ensures
        unicode_code(byte_of(c)->0) == c as u32,
{
}

/// The code of the character that stands for `byte`.
pub fn bytes_to_unicode(byte: u8) -> (code: u32)
    ensures
        code == unicode_code(byte),
{
    if (33 <= byte && byte <= 126) || (161 <= byte && byte <= 172) || 174 <= byte {
        byte as u32
    } else if byte <= 32 {
        256 + byte as u32
    } else if byte <= 160 {
        162 + byte as u32
    } else {
        323
    }
}

/// The byte that `c` stands for, if it stands for one.
pub fn unicode_to_bytes(c: char) -> (byte: Option<u8>)
    ensures
        byte == byte_of(c),
{
    let code = c as u32;
    if (33 <= code && code <= 126) || (161 <= code && code <= 172) || (174 <= code && code <= 255) {
        Some(code as u8)
    } else if 256 <= code && code <= 288 {
        Some((code - 256) as u8)
    } else if 289 <= code && code <= 322 {
        Some((code - 162) as u8)
    } else if code == 323 {
        Some(173)
    } else {
        None
    }
}

/// The characters of all tokens, one token after the other.
pub open spec fn joined(tokens: Seq<Seq<char>>) -> Seq<char>
    decreases tokens.len(),
{
    if tokens.len() == 0 {
        Seq::empty()
    } else {
        joined(tokens.drop_last()) + tokens.last()
    }
}

/// `text` with a space in the place of every word boundary.
pub open spec fn spaced(text: Seq<char>) -> Seq<char> {
    text.map_values(
        |c: char|
            if c == WORD_BOUNDARY {
                ' '
            } else {
                c
            },
    )
}

/// Whether `c` is white space: one of the code points that Unicode gives the
/// property White_Space.
pub open spec fn is_whitespace(c: char) -> bool {
    let code = c as u32;
    ||| 0x0009 <= code <= 0x000D
    ||| code == 0x0020
    ||| code == 0x0085
    ||| code == 0x00A0
    ||| code == 0x1680
    ||| 0x2000 <= code <= 0x200A
    ||| 0x2028 <= code <= 0x2029
    ||| code == 0x202F
    ||| code == 0x205F
    ||| code == 0x3000
}

/// `char::is_whitespace` of std tells whether a character has the Unicode
/// property White_Space.
#[verifier::external_body]
fn char_is_whitespace(c: char) -> (r: bool)
    ensures
        r == is_whitespace(c),
{
    c.is_whitespace()
}

/// The number of characters of white space at the front of `text`.
pub open spec fn leading_space(text: Seq<char>) -> nat
    decreases text.len(),
{
    if text.len() > 0 && is_whitespace(text[0]) {
        1 + leading_space(text.drop_first())
    } else {
        0
    }
}

/// The number of characters of white space at the end of `text`.
pub open spec fn trailing_space(text: Seq<char>) -> nat
    decreases text.len(),
{
    if text.len() > 0 && is_whitespace(text.last()) {
        1 + trailing_space(text.drop_last())
    } else {
        0
    }
}

/// `text` without the white space at its front and at its end.
pub open spec fn trimmed(text: Seq<char>) -> Seq<char> {
    let rest = text.skip(leading_space(text) as int);
    rest.take(rest.len() - trailing_space(rest))
}

/// The bytes that the characters of `text` stand for; a character that
/// stands for no byte gives the low byte of its code.
pub open spec fn text_bytes(text: Seq<char>) -> Seq<u8> {
    text.map_values(
        |c: char|
            match byte_of(c) {
                Some(byte) => byte,
                None => c as u8,
            },
    )
}

/// The bytes of a text of printable ASCII characters are its UTF-8 bytes: each
/// character stands for its own byte.
pub proof fn lemma_printable_text_bytes(text: Seq<char>)
    requires
        forall|i: int| 0 <= i < text.len() ==> '!' <= #[trigger] text[i] <= '~',
    ensures
        text_bytes(text) == encode_utf8(text),
{
    assert(is_ascii_chars(text));
    is_ascii_chars_encode_utf8(text);
    assert(text_bytes(text) =~= encode_utf8(text));
}

/// What `String::from_utf8_lossy` makes of `bytes`.
pub uninterp spec fn utf8_lossy(bytes: Seq<u8>) -> Seq<char>;

/// `String::from_utf8_lossy` of std turns bytes into text. Bytes that are
/// valid UTF-8 give the text that they encode; any other bytes give a text
/// with replacement characters in it.
#[verifier::external_body]
fn from_utf8_lossy(bytes: &Vec<u8>) -> (text: String)
    ensures
        text@ == utf8_lossy(bytes@),
        valid_utf8(bytes@) ==> text@ == decode_utf8(bytes@),
{
    String::from_utf8_lossy(bytes).to_string()
}

/// The characters of all tokens in one text, with a space in the place of
/// every word boundary.
pub fn join_tokens(tokens: &Vec<String>) -> (text: Vec<char>)
    ensures
        text@ == spaced(joined(tokens.deep_view())),
{
    let mut text: Vec<char> = Vec::new();
    let ghost all = tokens.deep_view();
    let mut i: usize = 0;
    assert(all.take(0) =~= Seq::empty());
    while i < tokens.len()
        invariant
            i <= tokens@.len(),
            all == tokens.deep_view(),
            text@ == spaced(joined(all.take(i as int))),
        decreases tokens@.len() - i,
    {
        let token = chars_of(tokens[i].as_str());
        assert(token@ == all[i as int]);
        assert(all.take(i + 1).drop_last() =~= all.take(i as int));
        let ghost before = text@;
        let mut j: usize = 0;
        while j < token.len()
            invariant
                j <= token@.len(),
                text@ == before + spaced(token@.take(j as int)),
            decreases token@.len() - j,
        {
            let c = token[j];
            if c == WORD_BOUNDARY {
                text.push(' ');
            } else {
                text.push(c);
            }
            assert(spaced(token@.take(j + 1)) =~= spaced(token@.take(j as int)).push(
                if c == WORD_BOUNDARY {
                    ' '
                } else {
                    c
                },
            ));
            j = j + 1;
        }
        assert(token@.take(j as int) =~= token@);
        assert(spaced(joined(all.take(i as int)) + token@) =~= before + spaced(token@));
        i = i + 1;
    }
    assert(all.take(i as int) =~= all);
    text
}

/// The part of `text` that is left when the white space at its front and at
/// its end is taken away: the index at which it starts and the index at which
/// it ends.
pub fn trim_bounds(text: &Vec<char>) -> (bounds: (usize, usize))
    ensures
        bounds.0 <= bounds.1 <= text@.len(),
        text@.subrange(bounds.0 as int, bounds.1 as int) == trimmed(text@),
{
    let mut start: usize = 0;
    assert(text@.skip(0) =~= text@);
    while start < text.len() && char_is_whitespace(text[start])
        invariant
            start <= text@.len(),
            leading_space(text@) == start + leading_space(text@.skip(start as int)),
        decreases text@.len() - start,
    {
        assert(text@.skip(start as int).drop_first() =~= text@.skip(start + 1));
        start = start + 1;
    }
    let ghost rest = text@.skip(start as int);
    let mut end: usize = text.len();
    assert(rest.take(rest.len() as int) =~= rest);
    while end > start && char_is_whitespace(text[end - 1])
        invariant
            start <= end <= text@.len(),
            rest == text@.skip(start as int),
            trailing_space(rest) == (text@.len() - end) + trailing_space(rest.take(end - start)),
        decreases end,
    {
        assert(rest.take(end - start).drop_last() =~= rest.take(end - 1 - start));
        end = end - 1;
    }
    assert(text@.subrange(start as int, end as int) =~= rest.take(rest.len() - trailing_space(rest)));
    (start, end)
}

/// The bytes that tokens give: the tokens are joined, every word boundary
/// becomes a space, the white space at both ends is taken away, and every
/// character gives the byte that it stands for.
pub open spec fn decoded_bytes(tokens: Seq<Seq<char>>) -> Seq<u8> {
    text_bytes(trimmed(spaced(joined(tokens))))
}

/// Decodes tokens written in the byte-level alphabet: the tokens are joined,
/// every word boundary becomes a space, the white space at both ends is
/// taken away, every character gives the byte that it stands for, and the
/// bytes are read as UTF-8, with replacement characters where they are not.
pub fn convert_tokens_to_string(tokens: Vec<String>) -> (text: String)
    ensures
        text@ == utf8_lossy(decoded_bytes(tokens.deep_view())),
        valid_utf8(decoded_bytes(tokens.deep_view())) ==> text@ == decode_utf8(
            decoded_bytes(tokens.deep_view()),
        ),
        forall|decoded: Seq<char>|
            decoded_bytes(tokens.deep_view()) == #[trigger] encode_utf8(decoded) ==> text@
                == decoded,
{
    let joined_text = join_tokens(&tokens);
    let (start, end) = trim_bounds(&joined_text);
    let ghost kept = trimmed(joined_text@);
    let mut bytes: Vec<u8> = Vec::new();
    let mut i: usize = start;
    while i < end
        invariant
            start <= i <= end <= joined_text@.len(),
            kept == joined_text@.subrange(start as int, end as int),
            bytes@ == text_bytes(kept.take(i - start)),
        decreases end - i,
    {
        let c = joined_text[i];
        let byte = match unicode_to_bytes(c) {
            Some(byte) => byte,
            None => c as u8,
        };
        bytes.push(byte);
        assert(text_bytes(kept.take(i + 1 - start)) =~= text_bytes(kept.take(i - start)).push(byte));
        i = i + 1;
    }
    assert(kept.take(end - start) =~= kept);
    proof {
        assert forall|decoded: Seq<char>| bytes@ == #[trigger] encode_utf8(decoded) implies valid_utf8(
            bytes@,
        ) && decode_utf8(bytes@) == decoded by {
            encode_utf8_valid_utf8(decoded);
            encode_utf8_decode_utf8(decoded);
        }
    }
    from_utf8_lossy(&bytes)
}

} // verus!
