//! The tokenizer's vocabulary: token strings, each with the ids that stand
//! for it, and the id that ends a generation.

use crate::error::FsmError;
use crate::maps::{list_entries, new_text_map, set_contains, text_entries, text_get, text_insert};
use crate::sorting::{lemma_same_entries, sort_by_text, text_before};
use crate::sp_decode::WORD_BOUNDARY;
use crate::text::{chars_of, string_of};
use rustc_hash::{FxHashMap, FxHashSet};
use vstd::prelude::*;

verus! {

/// What a `TokenVocabulary` stands for.
pub struct Vocabulary {
    /// The token strings in order, each with its ids.
    pub entries: Seq<(Seq<char>, Seq<u32>)>,
    /// The id that ends a generation.
    pub eos: u32,
}

impl Vocabulary {
    /// The ids of each entry, in the entries' order.
    pub open spec fn ids(self) -> Seq<Seq<u32>> {
        Seq::new(self.entries.len(), |i: int| self.entries[i].1)
    }

    /// The token string of each entry, in the entries' order.
    pub open spec fn tokens(self) -> Seq<Seq<char>> {
        Seq::new(self.entries.len(), |i: int| self.entries[i].0)
    }
}

/// The entries that token strings and id lists of equal number stand for.
pub open spec fn entries_of(tokens: Seq<String>, values: Seq<Vec<u32>>) -> Seq<
    (Seq<char>, Seq<u32>),
> {
    Seq::new(tokens.len(), |i: int| (tokens[i]@, values[i]@))
}

/// The index of the first entry whose token is `token`, if there is one.
pub open spec fn index_of_token(entries: Seq<(Seq<char>, Seq<u32>)>, token: Seq<char>) -> Option<
    int,
>
    decreases entries.len(),
{
    if entries.len() == 0 {
        None
    } else {
        match index_of_token(entries.drop_last(), token) {
            Some(i) => Some(i),
            None => if entries.last().0 == token {
                Some(entries.len() - 1)
            } else {
                None
            },
        }
    }
}

/// What `index_of_token` finds is the first entry with the token.
pub proof fn lemma_index_of_token(entries: Seq<(Seq<char>, Seq<u32>)>, token: Seq<char>)
    ensures
        match index_of_token(entries, token) {
            Some(i) => 0 <= i < entries.len() && entries[i].0 == token && forall|j: int|
                0 <= j < i ==> (#[trigger] entries[j]).0 != token,
            None => forall|j: int| 0 <= j < entries.len() ==> (#[trigger] entries[j]).0 != token,
        },
    decreases entries.len(),
{
    if entries.len() > 0 {
        lemma_index_of_token(entries.drop_last(), token);
        assert forall|j: int| 0 <= j < entries.len() - 1 implies (#[trigger] entries[j])
            == entries.drop_last()[j] by {}
    }
}

/// The entries once `ids` were brought in under `token`. Where an entry has
/// the token already, it takes the ids in place of its own, or after its own
/// where `extend` is set; else a new entry follows at the end.
pub open spec fn with_ids(
    entries: Seq<(Seq<char>, Seq<u32>)>,
    token: Seq<char>,
    ids: Seq<u32>,
    extend: bool,
) -> Seq<(Seq<char>, Seq<u32>)> {
    match index_of_token(entries, token) {
        Some(i) => entries.update(
            i,
            (
                token,
                if extend {
                    entries[i].1 + ids
                } else {
                    ids
                },
            ),
        ),
        None => entries.push((token, ids)),
    }
}

/// `entries` once each of `more` was brought in in turn.
pub open spec fn with_all(
    entries: Seq<(Seq<char>, Seq<u32>)>,
    more: Seq<(Seq<char>, Seq<u32>)>,
    extend: bool,
) -> Seq<(Seq<char>, Seq<u32>)>
    decreases more.len(),
{
    if more.len() == 0 {
        entries
    } else {
        with_ids(with_all(entries, more.drop_last(), extend), more.last().0, more.last().1, extend)
    }
}

/// The character that writes the hexadecimal digit of value `digit`, in
/// upper case.
pub open spec fn hex_digit(digit: u8) -> char {
    if digit < 10 {
        (48 + digit) as char
    } else {
        (55 + digit) as char
    }
}

/// Whether `c` is a hexadecimal digit in upper case.
pub open spec fn is_hex_digit(c: char) -> bool {
    48 <= c as u32 <= 57 || 65 <= c as u32 <= 70
}

/// The value of the hexadecimal digit `c`.
pub open spec fn hex_value(c: char) -> u8 {
    if c as u32 <= 57 {
        (c as u32 - 48) as u8
    } else {
        (c as u32 - 55) as u8
    }
}

/// The symbols that stand for `byte`: the byte's own character for a byte
/// below 0x80, and else a NUL with the byte's two hexadecimal digits.
pub open spec fn symbol_of_byte(byte: u8) -> Seq<char> {
    if byte >= 0x80 {
        seq!['\0', hex_digit(byte / 16), hex_digit(byte % 16)]
    } else {
        seq![byte as char]
    }
}

/// Whether `token` is a byte written as `<0xHH>` with two hexadecimal digits
/// in upper case.
pub open spec fn is_byte_token(token: Seq<char>) -> bool {
    &&& token.len() == 6
    &&& token[0] == '<'
    &&& token[1] == '0'
    &&& token[2] == 'x'
    &&& is_hex_digit(token[3])
    &&& is_hex_digit(token[4])
    &&& token[5] == '>'
}

/// The byte that a byte token writes.
pub open spec fn byte_token_value(token: Seq<char>) -> u8 {
    (hex_value(token[3]) * 16 + hex_value(token[4])) as u8
}

/// The canonical form of a raw token: a byte token gives the symbols of its
/// byte, a token that starts with the word boundary gets a space in its
/// place, and any other token stays as it is.
pub open spec fn preprocessed(token: Seq<char>) -> Seq<char> {
    if is_byte_token(token) {
        symbol_of_byte(byte_token_value(token))
    } else if token.len() > 0 && token[0] == WORD_BOUNDARY {
        seq![' '] + token.drop_first()
    } else {
        token
    }
}

/// A token in canonical form is its own canonical form.
pub proof fn lemma_preprocess_idempotent(token: Seq<char>)
    ensures
        preprocessed(preprocessed(token)) == preprocessed(token),
{
    let once = preprocessed(token);
    if is_byte_token(token) {
        let byte = byte_token_value(token);
        if byte < 0x80 {
            assert(once[0] as u32 == byte);
        }
        assert(!is_byte_token(once));
    } else if token.len() > 0 && token[0] == WORD_BOUNDARY {
        assert(once[0] == ' ');
    }
}

/// The symbols that stand for `byte`.
pub fn byte_to_symbol(byte: u8) -> (symbol: String)
    ensures
        symbol@ == symbol_of_byte(byte),
{
    let mut chars: Vec<char> = Vec::new();
    if byte >= 0x80 {
        chars.push('\0');
        chars.push(hex_char(byte / 16));
        chars.push(hex_char(byte % 16));
    } else {
        chars.push(byte as char);
    }
    assert(chars@ =~= symbol_of_byte(byte));
    string_of(&chars)
}

/// The character that writes the hexadecimal digit of value `digit`.
fn hex_char(digit: u8) -> (c: char)
    requires
        digit < 16,
    ensures
        c == hex_digit(digit),
{
    if digit < 10 {
        (48 + digit) as char
    } else {
        (55 + digit) as char
    }
}

/// The value of a hexadecimal digit in upper case.
fn hex_digit_value(c: char) -> (value: Option<u8>)
    ensures
        value is Some <==> is_hex_digit(c),
        value matches Some(v) ==> v == hex_value(c) && v < 16,
{
    let code = c as u32;
    if 48 <= code && code <= 57 {
        Some((code - 48) as u8)
    } else if 65 <= code && code <= 70 {
        Some((code - 55) as u8)
    } else {
        None
    }
}

/// The canonical form of a raw token, as `preprocessed` describes.
pub fn preprocess_token(token: &str) -> (processed: String)
    ensures
        processed@ == preprocessed(token@),
{
    let chars = chars_of(token);
    if chars.len() == 6 && chars[0] == '<' && chars[1] == '0' && chars[2] == 'x' && chars[5] == '>' {
        match (hex_digit_value(chars[3]), hex_digit_value(chars[4])) {
            (Some(high), Some(low)) => {
                return byte_to_symbol(high * 16 + low);
            },
            _ => {},
        }
    }
    if chars.len() > 0 && chars[0] == WORD_BOUNDARY {
        let mut spaced: Vec<char> = Vec::new();
        spaced.push(' ');
        let mut i: usize = 1;
        while i < chars.len()
            invariant
                1 <= i <= chars@.len(),
                spaced@ == seq![' '] + chars@.subrange(1, i as int),
            decreases chars@.len() - i,
        {
            spaced.push(chars[i]);
            assert(chars@.subrange(1, i + 1) =~= chars@.subrange(1, i as int).push(chars@[i as int]));
            i = i + 1;
        }
        assert(chars@.subrange(1, i as int) =~= chars@.drop_first());
        return string_of(&spaced);
    }
    string_of(&chars)
}

/// The index of the first of `tokens` that reads as `token` does.
pub fn find_token(tokens: &Vec<String>, values: &Vec<Vec<u32>>, token: &String) -> (found: Option<
    usize,
>)
    requires
        tokens@.len() == values@.len(),
    ensures
        match found {
            Some(i) => index_of_token(entries_of(tokens@, values@), token@) == Some(i as int),
            None => index_of_token(entries_of(tokens@, values@), token@) is None,
        },
{
    let ghost entries = entries_of(tokens@, values@);
    let mut i: usize = 0;
    assert(entries.take(0) =~= Seq::empty());
    while i < tokens.len()
        invariant
            i <= tokens@.len(),
            entries == entries_of(tokens@, values@),
            index_of_token(entries.take(i as int), token@) is None,
        decreases tokens@.len() - i,
    {
        assert(entries.take(i + 1).drop_last() =~= entries.take(i as int));
        if tokens[i] == *token {
            proof {
                lemma_found_stays(entries, token@, i + 1);
            }
            return Some(i);
        }
        i = i + 1;
    }
    assert(entries.take(i as int) =~= entries);
    None
}

/// Where the first entries hold the token, more entries do not change what
/// is found.
proof fn lemma_found_stays(entries: Seq<(Seq<char>, Seq<u32>)>, token: Seq<char>, upto: int)
    requires
        0 <= upto <= entries.len(),
        index_of_token(entries.take(upto), token) is Some,
    ensures
        index_of_token(entries, token) == index_of_token(entries.take(upto), token),
    decreases entries.len() - upto,
{
    if upto < entries.len() {
        assert(entries.take(upto + 1).drop_last() =~= entries.take(upto));
        lemma_found_stays(entries, token, upto + 1);
    } else {
        assert(entries.take(upto) =~= entries);
    }
}

/// `index` holds `position` under a key that reads as `token`.
pub open spec fn holds_position(index: Map<String, usize>, token: Seq<char>, position: int) -> bool {
    exists|k: String| #[trigger] index.contains_key(k) && k@ == token && index[k] == position
}

/// `index` tells where each token stands in `entries`: every key reads as
/// the token at its position, every entry is held under its token, and no two
/// keys read the same.
pub open spec fn is_index_of(index: Map<String, usize>, entries: Seq<(Seq<char>, Seq<u32>)>) -> bool {
    &&& forall|k: String| #[trigger]
        index.contains_key(k) ==> index[k] < entries.len() && entries[index[k] as int].0 == k@
    &&& forall|i: int|
        0 <= i < entries.len() ==> holds_position(index, (#[trigger] entries[i]).0, i)
    &&& forall|k1: String, k2: String|
        #![trigger index.contains_key(k1), index.contains_key(k2)]
        index.contains_key(k1) && index.contains_key(k2) && k1@ == k2@ ==> k1 == k2
}

/// Where an index tells that a token stands at a position, the token stands
/// there and nowhere before.
proof fn lemma_indexed_is_first(
    index: Map<String, usize>,
    entries: Seq<(Seq<char>, Seq<u32>)>,
    token: Seq<char>,
    position: int,
)
    requires
        is_index_of(index, entries),
        holds_position(index, token, position),
    ensures
        index_of_token(entries, token) == Some(position),
{
    lemma_index_of_token(entries, token);
    let k = choose|k: String| #[trigger] index.contains_key(k) && k@ == token && index[k] == position;
    assert(entries[position].0 == token);
    let first = index_of_token(entries, token)->0;
    assert(holds_position(index, entries[first].0, first));
    let other = choose|other: String| #[trigger]
        index.contains_key(other) && other@ == entries[first].0 && index[other] == first;
    assert(index.contains_key(k) && index.contains_key(other));
}

/// Where an index holds no key that reads as a token, no entry has the
/// token.
proof fn lemma_not_indexed_is_absent(
    index: Map<String, usize>,
    entries: Seq<(Seq<char>, Seq<u32>)>,
    token: Seq<char>,
)
    requires
        is_index_of(index, entries),
        forall|k: String| #[trigger] index.contains_key(k) ==> k@ != token,
    ensures
        index_of_token(entries, token) is None,
{
    lemma_index_of_token(entries, token);
    if index_of_token(entries, token) is Some {
        let first = index_of_token(entries, token)->0;
        assert(holds_position(index, entries[first].0, first));
    }
}

/// Brings `ids` in under `token`, as `with_ids` describes. `index` tells
/// where each token stands, and is kept up to date.
pub fn put_ids(
    tokens: &mut Vec<String>,
    values: &mut Vec<Vec<u32>>,
    index: &mut FxHashMap<String, usize>,
    token: String,
    ids: Vec<u32>,
    extend: bool,
)
    requires
        old(tokens)@.len() == old(values)@.len(),
        is_index_of(old(index)@, entries_of(old(tokens)@, old(values)@)),
    ensures
        final(tokens)@.len() == final(values)@.len(),
        is_index_of(final(index)@, entries_of(final(tokens)@, final(values)@)),
        entries_of(final(tokens)@, final(values)@) == with_ids(
            entries_of(old(tokens)@, old(values)@),
            token@,
            ids@,
            extend,
        ),
{
    let ghost before = entries_of(tokens@, values@);
    let ghost places = index@;
    match text_get(index, &token) {
        Some(i) => {
            proof {
                assert(holds_position(places, token@, i as int));
                lemma_indexed_is_first(places, before, token@, i as int);
            }
            if extend {
                let ghost own = values@[i as int]@;
                let mut j: usize = 0;
                while j < ids.len()
                    invariant
                        j <= ids@.len(),
                        i < values@.len(),
                        values@.len() == old(values)@.len(),
                        forall|k: int|
                            0 <= k < values@.len() && k != i ==> values@[k] == old(values)@[k],
                        values@[i as int]@ == own + ids@.take(j as int),
                    decreases ids@.len() - j,
                {
                    values[i].push(ids[j]);
                    assert(ids@.take(j + 1) =~= ids@.take(j as int).push(ids@[j as int]));
                    j = j + 1;
                }
                assert(ids@.take(j as int) =~= ids@);
            } else {
                values[i] = ids;
            }
            proof {
                let after = entries_of(tokens@, values@);
                assert(after =~= with_ids(before, token@, ids@, extend));
                assert forall|p: int| 0 <= p < after.len() implies holds_position(
                    places,
                    (#[trigger] after[p]).0,
                    p,
                ) by {
                    assert(after[p].0 == before[p].0);
                    assert(holds_position(places, before[p].0, p));
                }
            }
        },
        None => {
            proof {
                lemma_not_indexed_is_absent(places, before, token@);
            }
            let position = tokens.len();
            text_insert(index, token.clone(), position);
            tokens.push(token);
            values.push(ids);
            proof {
                let after = entries_of(tokens@, values@);
                assert(after =~= with_ids(before, token@, ids@, extend));
                assert forall|p: int| 0 <= p < after.len() implies holds_position(
                    index@,
                    (#[trigger] after[p]).0,
                    p,
                ) by {
                    if p < before.len() {
                        assert(holds_position(places, before[p].0, p));
                        let k = choose|k: String| #[trigger]
                            places.contains_key(k) && k@ == before[p].0 && places[k] == p;
                        assert(index@.contains_key(k) && index@[k] == p);
                    } else {
                        assert(index@.contains_key(token) && index@[token] == p);
                    }
                }
            }
        },
    }
}

/// `map` holds `ids` under a token that reads as `token`.
pub open spec fn holds_entry(map: Map<String, Vec<u32>>, token: Seq<char>, ids: Seq<u32>) -> bool {
    exists|k: String| #[trigger] map.contains_key(k) && k@ == token && map[k]@ == ids
}

/// `entries` holds what `map` holds, each token once.
pub open spec fn lists_vocabulary(
    map: Map<String, Vec<u32>>,
    entries: Seq<(Seq<char>, Seq<u32>)>,
) -> bool {
    &&& forall|k: String| #[trigger] map.contains_key(k) ==> entries.contains((k@, map[k]@))
    &&& forall|i: int|
        0 <= i < entries.len() ==> holds_entry(map, (#[trigger] entries[i]).0, entries[i].1)
    &&& forall|i: int, j: int|
        0 <= i < j < entries.len() ==> (#[trigger] entries[i]).0 != (#[trigger] entries[j]).0
}

/// `map` holds `id` under a token that reads as `token`.
pub open spec fn holds_raw_entry(map: Map<String, u32>, token: Seq<char>, id: u32) -> bool {
    exists|k: String| #[trigger] map.contains_key(k) && k@ == token && map[k] == id
}

/// `order` holds what `map` holds, each token once.
pub open spec fn lists_raw_vocabulary(map: Map<String, u32>, order: Seq<(Seq<char>, u32)>) -> bool {
    &&& forall|k: String| #[trigger] map.contains_key(k) ==> order.contains((k@, map[k]))
    &&& forall|i: int|
        0 <= i < order.len() ==> holds_raw_entry(map, (#[trigger] order[i]).0, order[i].1)
    &&& forall|i: int, j: int|
        0 <= i < j < order.len() ==> (#[trigger] order[i]).0 != (#[trigger] order[j]).0
}

/// The texts that the special tokens read as; none where no special tokens
/// are given.
pub open spec fn special_texts(special_tokens: Option<FxHashSet<String>>) -> Set<Seq<char>> {
    match special_tokens {
        Some(set) => Set::new(
            |text: Seq<char>| exists|member: String| #[trigger] set@.contains(member) && member@ == text,
        ),
        None => Set::empty(),
    }
}

/// The entries that raw tokens give when they are taken in `order`: a
/// special token is left out, any other token is brought into canonical form
/// where `decode` is set, and the ids of tokens that then read the same are
/// gathered in one entry, in the place of the first of them.
pub open spec fn gathered(order: Seq<(Seq<char>, u32)>, special: Set<Seq<char>>, decode: bool) -> Seq<
    (Seq<char>, Seq<u32>),
>
    decreases order.len(),
{
    if order.len() == 0 {
        Seq::empty()
    } else {
        let before = gathered(order.drop_last(), special, decode);
        let token = order.last().0;
        if special.contains(token) {
            before
        } else {
            with_ids(
                before,
                if decode {
                    preprocessed(token)
                } else {
                    token
                },
                seq![order.last().1],
                true,
            )
        }
    }
}

/// No text stands after one that it comes before by its UTF-8 bytes.
pub open spec fn is_ascending(texts: Seq<Seq<char>>) -> bool {
    forall|i: int, j: int|
        0 <= i < j < texts.len() ==> !text_before(#[trigger] texts[j], #[trigger] texts[i])
}

/// The tokens of raw entries, in the entries' order.
pub open spec fn raw_tokens(order: Seq<(Seq<char>, u32)>) -> Seq<Seq<char>> {
    Seq::new(order.len(), |i: int| order[i].0)
}

/// The raw tokens of `pairs` as texts, each with its id.
pub open spec fn raw_order(pairs: Seq<(String, u32)>) -> Seq<(Seq<char>, u32)> {
    Seq::new(pairs.len(), |i: int| (pairs[i].0@, pairs[i].1))
}

/// Pairs that hold what a map holds, no text twice, list the map.
proof fn lemma_lists_raw(map: Map<String, u32>, pairs: Seq<(String, u32)>)
    requires
        forall|i: int|
            0 <= i < pairs.len() ==> map.contains_key(#[trigger] pairs[i].0) && map[pairs[i].0]
                == pairs[i].1,
        forall|k: String|
            map.contains_key(k) ==> exists|i: int| 0 <= i < pairs.len() && #[trigger] pairs[i].0 == k,
        forall|i: int, j: int|
            0 <= i < j < pairs.len() ==> (#[trigger] pairs[i]).0@ != (#[trigger] pairs[j]).0@,
    ensures
        lists_raw_vocabulary(map, raw_order(pairs)),
{
    let order = raw_order(pairs);
    assert forall|k: String| #[trigger] map.contains_key(k) implies order.contains(
        (k@, map[k]),
    ) by {
        let i = choose|i: int| 0 <= i < pairs.len() && #[trigger] pairs[i].0 == k;
        assert(order[i] == (k@, map[k]));
    }
    assert forall|i: int| 0 <= i < order.len() implies holds_raw_entry(
        map,
        (#[trigger] order[i]).0,
        order[i].1,
    ) by {
        assert(map.contains_key(pairs[i].0));
    }
    assert forall|i: int, j: int| 0 <= i < j < order.len() implies
        (#[trigger] order[i]).0 != (#[trigger] order[j]).0 by {
        assert(pairs[i].0@ != pairs[j].0@);
    }
}

/// Brings one raw token in: a special token is left out, any other token is
/// brought into canonical form where `decode` is set, and its id is added to
/// the entry of the text that it then reads as.
fn gather_token(
    tokens: &mut Vec<String>,
    values: &mut Vec<Vec<u32>>,
    index: &mut FxHashMap<String, usize>,
    token: &String,
    token_id: u32,
    special_tokens: &Option<FxHashSet<String>>,
    decode: bool,
)
    requires
        old(tokens)@.len() == old(values)@.len(),
        is_index_of(old(index)@, entries_of(old(tokens)@, old(values)@)),
    ensures
        final(tokens)@.len() == final(values)@.len(),
        is_index_of(final(index)@, entries_of(final(tokens)@, final(values)@)),
        entries_of(final(tokens)@, final(values)@) == (if special_texts(*special_tokens).contains(
            token@,
        ) {
            entries_of(old(tokens)@, old(values)@)
        } else {
            with_ids(
                entries_of(old(tokens)@, old(values)@),
                if decode {
                    preprocessed(token@)
                } else {
                    token@
                },
                seq![token_id],
                true,
            )
        }),
{
    let is_special = match special_tokens {
        Some(set) => set_contains(set, token),
        None => false,
    };
    if !is_special {
        let processed_token = if decode {
            preprocess_token(token.as_str())
        } else {
            token.clone()
        };
        let mut ids: Vec<u32> = Vec::new();
        ids.push(token_id);
        assert(ids@ =~= seq![token_id]);
        put_ids(tokens, values, index, processed_token, ids, true);
    }
}

/// An ordered list of token strings, each with the ids that stand for it.
#[derive(Debug)]
pub struct TokenVocabulary {
    tokens: Vec<String>,
    values: Vec<Vec<u32>>,
    eos_token_id: u32,
}

impl View for TokenVocabulary {
    type V = Vocabulary;

    closed spec fn view(&self) -> Vocabulary {
        Vocabulary {
            entries: Seq::new(
                self.tokens@.len(),
                |i: int|
                    (
                        self.tokens@[i]@,
                        if i < self.values@.len() {
                            self.values@[i]@
                        } else {
                            Seq::empty()
                        },
                    ),
            ),
            eos: self.eos_token_id,
        }
    }
}

impl TokenVocabulary {
    #[verifier::type_invariant]
    closed spec fn inv(&self) -> bool {
        self.tokens@.len() == self.values@.len()
    }

    /// The vocabulary without entries, whose end-of-sequence id is 0.
    pub fn default() -> (r: TokenVocabulary)
        ensures
            r@.entries.len() == 0,
            r@.eos == 0,
    {
        TokenVocabulary { tokens: Vec::new(), values: Vec::new(), eos_token_id: 0 }
    }

    /// The vocabulary without entries that ends a generation with
    /// `eos_token_id`.
    pub fn new(eos_token_id: u32) -> (r: TokenVocabulary)
        ensures
            r@.entries.len() == 0,
            r@.eos == eos_token_id,
    {
        TokenVocabulary { tokens: Vec::new(), values: Vec::new(), eos_token_id }
    }

    /// The id that ends a generation.
    pub fn eos_token_id(&self) -> (r: u32)
        ensures
            r == self@.eos,
    {
        self.eos_token_id
    }

    /// Adds an entry at the end.
    pub fn add_token(&mut self, token: String, values: Vec<u32>)
        ensures
            final(self)@.entries == old(self)@.entries.push((token@, values@)),
            final(self)@.eos == old(self)@.eos,
    {
        proof {
            use_type_invariant(&*self);
        }
        let eos_token_id = self.eos_token_id;
        let mut taken = TokenVocabulary::new(eos_token_id);
        std::mem::swap(self, &mut taken);
        let mut tokens = taken.tokens;
        let mut all_values = taken.values;
        tokens.push(token);
        all_values.push(values);
        *self = TokenVocabulary { tokens, values: all_values, eos_token_id };
        assert(self@.entries =~= old(self)@.entries.push((token@, values@)));
    }

    /// The number of entries.
    pub fn len(&self) -> (n: usize)
        ensures
            n == self@.entries.len(),
    {
        self.tokens.len()
    }

    /// Whether there is no entry.
    pub fn is_empty(&self) -> (r: bool)
        ensures
            r == (self@.entries.len() == 0),
    {
        self.tokens.len() == 0
    }

    /// The token string of entry `index`.
    pub fn token(&self, index: usize) -> (r: &String)
        requires
            index < self@.entries.len(),
        ensures
            r@ == self@.entries[index as int].0,
    {
        &self.tokens[index]
    }

    /// The ids of entry `index`.
    pub fn ids(&self, index: usize) -> (r: &Vec<u32>)
        requires
            index < self@.entries.len(),
        ensures
            r@ == self@.entries[index as int].1,
    {
        proof {
            use_type_invariant(self);
        }
        &self.values[index]
    }

    /// The vocabulary that holds what `vocab_map` holds, each token once, in
    /// ascending order of the tokens.
    pub fn from_hashmap(vocab_map: FxHashMap<String, Vec<u32>>, eos_token_id: u32) -> (r:
        TokenVocabulary)
        ensures
            r@.eos == eos_token_id,
            lists_vocabulary(vocab_map@, r@.entries),
            is_ascending(r@.tokens()),
    {
        let mut pairs = list_entries(vocab_map);
        let ghost walked = pairs@;
        sort_by_text(&mut pairs);
        proof {
            lemma_same_entries(walked, pairs@);
            assert forall|i: int| 0 <= i < pairs@.len() implies
                vocab_map@.contains_key(#[trigger] pairs@[i].0,
            ) && vocab_map@[pairs@[i].0] == pairs@[i].1 by {
                let at = choose|at: int| 0 <= at < walked.len() && walked[at] == pairs@[i];
            }
            assert forall|k: String| vocab_map@.contains_key(k) implies exists|i: int|
                0 <= i < pairs@.len() && #[trigger] pairs@[i].0 == k by {
                let at = choose|at: int| 0 <= at < walked.len() && #[trigger] walked[at].0 == k;
                assert(pairs@.contains(walked[at]));
                let i = choose|i: int| 0 <= i < pairs@.len() && pairs@[i] == walked[at];
                assert(pairs@[i].0 == k);
            }
        }
        let mut tokens: Vec<String> = Vec::new();
        let mut values: Vec<Vec<u32>> = Vec::new();
        let mut i: usize = 0;
        while i < pairs.len()
            invariant
                i <= pairs@.len(),
                tokens@.len() == i,
                values@.len() == i,
                forall|j: int| 0 <= j < i ==> (#[trigger] tokens@[j])@ == pairs@[j].0@,
                forall|j: int| 0 <= j < i ==> (#[trigger] values@[j])@ == pairs@[j].1@,
            decreases pairs@.len() - i,
        {
            tokens.push(pairs[i].0.clone());
            values.push(pairs[i].1.clone());
            i = i + 1;
        }
        let r = TokenVocabulary { tokens, values, eos_token_id };
        proof {
            assert forall|k: String| #[trigger] vocab_map@.contains_key(k) implies
                r@.entries.contains(
                (k@, vocab_map@[k]@),
            ) by {
                let i = choose|i: int| 0 <= i < pairs@.len() && #[trigger] pairs@[i].0 == k;
                assert(r@.entries[i] == (k@, vocab_map@[k]@));
            }
            assert forall|i: int| 0 <= i < r@.entries.len() implies holds_entry(
                vocab_map@,
                (#[trigger] r@.entries[i]).0,
                r@.entries[i].1,
            ) by {
                assert(vocab_map@.contains_key(pairs@[i].0));
            }
            assert forall|i: int, j: int| 0 <= i < j < r@.entries.len() implies
                (#[trigger] r@.entries[i]).0 != (#[trigger] r@.entries[j]).0 by {
                assert(pairs@[i].0@ != pairs@[j].0@);
            }
            assert forall|i: int, j: int| 0 <= i < j < r@.tokens().len() implies
                !text_before(#[trigger] r@.tokens()[j],
                #[trigger] r@.tokens()[i],
            ) by {
                assert(!text_before(pairs@[j].0@, pairs@[i].0@));
            }
        }
        r
    }

    /// The vocabulary of a tokenizer's raw tokens. An empty `raw_vocab` is
    /// refused. A special token is left out. With `from_sentencepiece` set,
    /// every other token is brought into canonical form. The ids of tokens
    /// that then read the same are gathered in one entry. The raw tokens are
    /// taken in ascending order.
    pub fn from_raw_vocab(
        raw_vocab: FxHashMap<String, u32>,
        eos_token_id: u32,
        special_tokens: Option<FxHashSet<String>>,
        from_sentencepiece: Option<bool>,
    ) -> (r: Result<TokenVocabulary, FsmError>)
        ensures
            r is Err <==> raw_vocab@.is_empty(),
            r matches Err(e) ==> e == FsmError::InputInvalid,
            r matches Ok(vocabulary) ==> vocabulary@.eos == eos_token_id && exists|
                order: Seq<(Seq<char>, u32)>,
            |
                #[trigger] lists_raw_vocabulary(raw_vocab@, order) && is_ascending(
                    raw_tokens(order),
                ) && vocabulary@.entries == gathered(
                    order,
                    special_texts(special_tokens),
                    from_sentencepiece == Some(true),
                ),
    {
        if raw_vocab.is_empty() {
            return Err(FsmError::InputInvalid);
        }
        let decode = match from_sentencepiece {
            Some(flag) => flag,
            None => false,
        };
        let mut pairs = text_entries(raw_vocab);
        let ghost walked = pairs@;
        sort_by_text(&mut pairs);
        let ghost order = raw_order(pairs@);
        proof {
            lemma_same_entries(walked, pairs@);
            assert forall|i: int| 0 <= i < pairs@.len() implies
                raw_vocab@.contains_key(#[trigger] pairs@[i].0,
            ) && raw_vocab@[pairs@[i].0] == pairs@[i].1 by {
                let at = choose|at: int| 0 <= at < walked.len() && walked[at] == pairs@[i];
            }
            assert forall|k: String| raw_vocab@.contains_key(k) implies exists|i: int|
                0 <= i < pairs@.len() && #[trigger] pairs@[i].0 == k by {
                let at = choose|at: int| 0 <= at < walked.len() && #[trigger] walked[at].0 == k;
                assert(pairs@.contains(walked[at]));
                let i = choose|i: int| 0 <= i < pairs@.len() && pairs@[i] == walked[at];
                assert(pairs@[i].0 == k);
            }
            lemma_lists_raw(raw_vocab@, pairs@);
            assert forall|i: int, j: int| 0 <= i < j < order.len() implies
                !text_before(#[trigger] raw_tokens(order)[j],
                #[trigger] raw_tokens(order)[i],
            ) by {
                assert(!text_before(pairs@[j].0@, pairs@[i].0@));
            }
        }
        let mut processed_tokens: Vec<String> = Vec::new();
        let mut processed_values: Vec<Vec<u32>> = Vec::new();
        let mut processed_vocab: FxHashMap<String, usize> = new_text_map();
        let mut i: usize = 0;
        assert(order.take(0) =~= Seq::empty());
        while i < pairs.len()
            invariant
                i <= pairs@.len(),
                order == raw_order(pairs@),
                decode == (from_sentencepiece == Some(true)),
                processed_tokens@.len() == processed_values@.len(),
                is_index_of(processed_vocab@, entries_of(processed_tokens@, processed_values@)),
                entries_of(processed_tokens@, processed_values@) == gathered(
                    order.take(i as int),
                    special_texts(special_tokens),
                    decode,
                ),
            decreases pairs@.len() - i,
        {
            assert(order.take(i + 1).drop_last() =~= order.take(i as int));
            assert(order.take(i + 1).last() == (pairs@[i as int].0@, pairs@[i as int].1));
            gather_token(
                &mut processed_tokens,
                &mut processed_values,
                &mut processed_vocab,
                &pairs[i].0,
                pairs[i].1,
                &special_tokens,
                decode,
            );
            i = i + 1;
        }
        assert(order.take(i as int) =~= order);
        let vocabulary = TokenVocabulary {
            tokens: processed_tokens,
            values: processed_values,
            eos_token_id,
        };
        assert(vocabulary@.entries =~= entries_of(processed_tokens@, processed_values@));
        Ok(vocabulary)
    }

    /// The vocabulary that holds the entries of `self` and of `other`. Of two
    /// entries of `self` with one token the later one counts. An entry of
    /// `other` whose token is there already adds its ids to that entry. The
    /// end-of-sequence id is that of `self`.
    pub fn merge(self, other: TokenVocabulary) -> (r: TokenVocabulary)
        ensures
            r@.eos == self@.eos,
            r@.entries == with_all(with_all(Seq::empty(), self@.entries, false), other@.entries, true),
    {
        proof {
            use_type_invariant(&self);
            use_type_invariant(&other);
        }
        let mut tokens: Vec<String> = Vec::new();
        let mut values: Vec<Vec<u32>> = Vec::new();
        let mut combined: FxHashMap<String, usize> = new_text_map();
        let ghost first = self@.entries;
        let ghost second = other@.entries;
        let mut i: usize = 0;
        assert(first.take(0) =~= Seq::empty());
        while i < self.tokens.len()
            invariant
                i <= self.tokens@.len(),
                self.tokens@.len() == self.values@.len(),
                first == self@.entries,
                tokens@.len() == values@.len(),
                is_index_of(combined@, entries_of(tokens@, values@)),
                entries_of(tokens@, values@) == with_all(Seq::empty(), first.take(i as int), false),
            decreases self.tokens@.len() - i,
        {
            assert(first.take(i + 1).drop_last() =~= first.take(i as int));
            put_ids(
                &mut tokens,
                &mut values,
                &mut combined,
                self.tokens[i].clone(),
                self.values[i].clone(),
                false,
            );
            i = i + 1;
        }
        assert(first.take(i as int) =~= first);
        let ghost own = entries_of(tokens@, values@);
        let mut i: usize = 0;
        assert(second.take(0) =~= Seq::empty());
        while i < other.tokens.len()
            invariant
                i <= other.tokens@.len(),
                other.tokens@.len() == other.values@.len(),
                second == other@.entries,
                tokens@.len() == values@.len(),
                is_index_of(combined@, entries_of(tokens@, values@)),
                entries_of(tokens@, values@) == with_all(own, second.take(i as int), true),
            decreases other.tokens@.len() - i,
        {
            assert(second.take(i + 1).drop_last() =~= second.take(i as int));
            put_ids(
                &mut tokens,
                &mut values,
                &mut combined,
                other.tokens[i].clone(),
                other.values[i].clone(),
                true,
            );
            i = i + 1;
        }
        assert(second.take(i as int) =~= second);
        let r = TokenVocabulary { tokens, values, eos_token_id: self.eos_token_id };
        assert(r@.entries =~= entries_of(tokens@, values@));
        r
    }

    /// Takes the first entry whose token is `token` away and returns its
    /// ids. Nothing happens where there is no such entry.
    pub fn remove_token(&mut self, token: &str) -> (removed: Option<Vec<u32>>)
        ensures
            final(self)@.eos == old(self)@.eos,
            match index_of_token(old(self)@.entries, token@) {
                Some(i) => removed matches Some(ids) && ids@ == old(self)@.entries[i].1
                    && final(self)@.entries == old(self)@.entries.remove(i),
                None => removed is None && final(self)@ == old(self)@,
            },
    {
        proof {
            use_type_invariant(&*self);
            lemma_index_of_token(self@.entries, token@);
        }
        assert(self@.entries =~= entries_of(self.tokens@, self.values@));
        let wanted = token.to_owned();
        match find_token(&self.tokens, &self.values, &wanted) {
            Some(pos) => {
                let eos_token_id = self.eos_token_id;
                let mut taken = TokenVocabulary::new(eos_token_id);
                std::mem::swap(self, &mut taken);
                let mut tokens = taken.tokens;
                let mut values = taken.values;
                tokens.remove(pos);
                let ids = values.remove(pos);
                *self = TokenVocabulary { tokens, values, eos_token_id };
                assert(self@.entries =~= old(self)@.entries.remove(pos as int));
                Some(ids)
            },
            None => None,
        }
    }

    /// The entries in order: a copy of each token with a copy of its ids.
    pub fn iter(&self) -> (entries: Vec<(String, Vec<u32>)>)
        ensures
            entries@.len() == self@.entries.len(),
            forall|i: int|
                0 <= i < entries@.len() ==> (#[trigger] entries@[i]).0@ == self@.entries[i].0
                    && entries@[i].1@ == self@.entries[i].1,
    {
        proof {
            use_type_invariant(self);
        }
        let mut entries: Vec<(String, Vec<u32>)> = Vec::new();
        let mut i: usize = 0;
        while i < self.tokens.len()
            invariant
                i <= self.tokens@.len(),
                self.tokens@.len() == self.values@.len(),
                entries@.len() == i,
                forall|j: int|
                    0 <= j < i ==> (#[trigger] entries@[j]).0@ == self.tokens@[j]@ && entries@[j].1@
                        == self.values@[j]@,
            decreases self.tokens@.len() - i,
        {
            entries.push((self.tokens[i].clone(), self.values[i].clone()));
            i = i + 1;
        }
        entries
    }

    /// The ids of every entry, in the entries' order.
    pub fn get_values(&self) -> (values: Vec<&Vec<u32>>)
        ensures
            values@.len() == self@.entries.len(),
            forall|i: int| 0 <= i < values@.len() ==> (#[trigger] values@[i])@ == self@.entries[i].1,
    {
        proof {
            use_type_invariant(self);
        }
        let mut values: Vec<&Vec<u32>> = Vec::new();
        let mut i: usize = 0;
        while i < self.values.len()
            invariant
                i <= self.values@.len(),
                self.tokens@.len() == self.values@.len(),
                values@.len() == i,
                forall|j: int| 0 <= j < i ==> (#[trigger] values@[j])@ == self.values@[j]@,
            decreases self.values@.len() - i,
        {
            values.push(&self.values[i]);
            i = i + 1;
        }
        values
    }

    /// The ids of every entry, in the entries' order.
    pub fn iter_values(&self) -> (values: Vec<&Vec<u32>>)
        ensures
            values@.len() == self@.entries.len(),
            forall|i: int| 0 <= i < values@.len() ==> (#[trigger] values@[i])@ == self@.entries[i].1,
    {
        self.get_values()
    }

    /// The ids of every entry, in the entries' order.
    pub fn values(&self) -> (r: &Vec<Vec<u32>>)
        ensures
            r.deep_view() == self@.ids(),
    {
        proof {
            use_type_invariant(self);
        }
        assert forall|i: int| 0 <= i < self.values@.len() implies
            #[trigger] self.values.deep_view()[i]
            == self@.ids()[i] by {
            assert(self.values.deep_view()[i] =~= self.values@[i]@);
        }
        assert(self.values.deep_view() =~= self@.ids());
        &self.values
    }
}

impl Clone for TokenVocabulary {
    /// A vocabulary with the same entries and the same end-of-sequence id.
    fn clone(&self) -> (r: TokenVocabulary)
        ensures
            r@ == self@,
    {
        proof {
            use_type_invariant(self);
        }
        let mut tokens: Vec<String> = Vec::new();
        let mut values: Vec<Vec<u32>> = Vec::new();
        let mut i: usize = 0;
        while i < self.tokens.len()
            invariant
                i <= self.tokens@.len(),
                self.tokens@.len() == self.values@.len(),
                tokens@.len() == i,
                values@.len() == i,
                forall|j: int| 0 <= j < i ==> (#[trigger] tokens@[j])@ == self.tokens@[j]@,
                forall|j: int| 0 <= j < i ==> (#[trigger] values@[j])@ == self.values@[j]@,
            decreases self.tokens@.len() - i,
        {
            tokens.push(self.tokens[i].clone());
            values.push(self.values[i].clone());
            i = i + 1;
        }
        let r = TokenVocabulary { tokens, values, eos_token_id: self.eos_token_id };
        assert(r@.entries =~= self@.entries);
        r
    }
}

} // verus!
