//! The automaton's dense transition table and the instructions handed to a
//! generator.

use crate::error::FsmError;
use crate::maps::{map_get, map_insert, new_map, text_entries, transition_entries};
use rustc_hash::FxHashMap;
use smallvec::SmallVec;
use vstd::prelude::*;
use vstd::string::StrSliceExecFns;

verus! {

/// One row of the transition table: the slot at index `symbol` holds the
/// state that the symbol leads to, or `u32::MAX` where there is no edge.
#[derive(Debug)]
pub struct StateMap {
    transitions: Vec<u32>,
}

impl View for StateMap {
    type V = Seq<u32>;

    closed spec fn view(&self) -> Seq<u32> {
        self.transitions@
    }
}

/// The edge that a row has for `transition`, if any.
pub open spec fn row_edge(row: Seq<u32>, transition: int) -> Option<u32> {
    if 0 <= transition < row.len() && row[transition] != u32::MAX {
        Some(row[transition])
    } else {
        None
    }
}

/// The edge that a table has from `state` over `transition`, if any.
pub open spec fn table_edge(table: Seq<Seq<u32>>, state: int, transition: int) -> Option<u32> {
    if 0 <= state < table.len() {
        row_edge(table[state], transition)
    } else {
        None
    }
}

impl StateMap {
    /// The state reached over `transition`, or `None` where the row has no
    /// edge for it.
    pub fn get(&self, transition: usize) -> (r: Option<u32>)
        ensures
            r == row_edge(self@, transition as int),
    {
        if transition < self.transitions.len() {
            let state: u32 = self.transitions[transition];
            if state == u32::MAX {
                None
            } else {
                Some(state)
            }
        } else {
            None
        }
    }
}

/// The rows of a transition table, the first 1024 of them held in place.
#[verifier::external_body]
pub struct RowStore {
    rows: SmallVec<[StateMap; 1024]>,
}

/// The rows that a store holds, in order.
pub uninterp spec fn stored_rows(store: RowStore) -> Seq<StateMap>;

/// `SmallVec::from_vec` makes a store that holds the rows of `rows`, in the
/// same order.
#[verifier::external_body]
fn store_rows(rows: Vec<StateMap>) -> (store: RowStore)
    ensures
        stored_rows(store) == rows@,
{
    RowStore { rows: SmallVec::from_vec(rows) }
}

/// `SmallVec::len` gives the number of rows.
#[verifier::external_body]
fn stored_len(store: &RowStore) -> (n: usize)
    ensures
        n == stored_rows(*store).len(),
{
    store.rows.len()
}

/// `SmallVec`'s slice gives the row at `index`, if there is one.
#[verifier::external_body]
fn stored_row(store: &RowStore, index: usize) -> (row: Option<&StateMap>)
    ensures
        row == (if index < stored_rows(*store).len() {
            Some(&stored_rows(*store)[index as int])
        } else {
            None
        }),
{
    store.rows.get(index)
}

/// A dense table of transitions, one row per state.
pub struct TransitionMap {
    transitions: RowStore,
}

impl View for TransitionMap {
    type V = Seq<Seq<u32>>;

    closed spec fn view(&self) -> Seq<Seq<u32>> {
        Seq::new(stored_rows(self.transitions).len(), |i: int| stored_rows(self.transitions)[i]@)
    }
}

/// The number of rows that a dense table of `map` has: one more than the
/// largest state that an edge leaves, and one where there is no edge.
pub open spec fn is_row_count(map: Map<(u32, u32), u32>, rows: int) -> bool {
    &&& rows >= 1
    &&& forall|k: (u32, u32)| map.contains_key(k) ==> k.0 < rows
    &&& rows > 1 ==> exists|k: (u32, u32)| map.contains_key(k) && k.0 == rows - 1
}

/// The number of columns that a dense table of `map` has: one more than the
/// largest symbol on an edge, and one where there is no edge.
pub open spec fn is_column_count(map: Map<(u32, u32), u32>, columns: int) -> bool {
    &&& columns >= 1
    &&& forall|k: (u32, u32)| map.contains_key(k) ==> k.1 < columns
    &&& columns > 1 ==> exists|k: (u32, u32)| map.contains_key(k) && k.1 == columns - 1
}

/// No edge of `map` takes the value that marks a slot without an edge for a
/// state or a symbol.
pub open spec fn ids_in_range(map: Map<(u32, u32), u32>) -> bool {
    forall|k: (u32, u32)| #[trigger]
        map.contains_key(k) ==> k.0 < u32::MAX && k.1 < u32::MAX && map[k] < u32::MAX
}

/// The edge that `map` has from `state` over `transition`, if any.
pub open spec fn map_edge(map: Map<(u32, u32), u32>, state: int, transition: int) -> Option<u32> {
    if 0 <= state <= u32::MAX && 0 <= transition <= u32::MAX && map.contains_key(
        (state as u32, transition as u32),
    ) {
        Some(map[(state as u32, transition as u32)])
    } else {
        None
    }
}

/// What the slot for `(state, transition)` of a dense table of `map` holds.
pub open spec fn dense_slot(map: Map<(u32, u32), u32>, state: int, transition: int) -> u32 {
    if 0 <= state <= u32::MAX && 0 <= transition <= u32::MAX && map.contains_key(
        (state as u32, transition as u32),
    ) {
        map[(state as u32, transition as u32)]
    } else {
        u32::MAX
    }
}

/// `table` is the dense form of `map`.
pub open spec fn is_dense_table(map: Map<(u32, u32), u32>, table: Seq<Seq<u32>>) -> bool {
    &&& is_row_count(map, table.len() as int)
    &&& forall|s: int| 0 <= s < table.len() ==> is_column_count(map, (#[trigger] table[s]).len() as int)
    &&& forall|s: int, t: int|
        0 <= s < table.len() && 0 <= t < table[s].len() ==> #[trigger] table[s][t] == dense_slot(
            map,
            s,
            t,
        )
}

/// `entries` lists the edges of `map`, each once.
pub open spec fn lists_edges(map: Map<(u32, u32), u32>, entries: Seq<((u32, u32), u32)>) -> bool {
    &&& forall|i: int|
        0 <= i < entries.len() ==> map.contains_key(#[trigger] entries[i].0) && map[entries[i].0]
            == entries[i].1
    &&& forall|k: (u32, u32)|
        map.contains_key(k) ==> exists|i: int| 0 <= i < entries.len() && #[trigger] entries[i].0 == k
    &&& forall|i: int, j: int|
        0 <= i < j < entries.len() ==> #[trigger] entries[i].0 != #[trigger] entries[j].0
}

/// A row of `columns` slots without an edge.
fn empty_row(columns: usize) -> (row: Vec<u32>)
    ensures
        row@.len() == columns,
        forall|t: int| 0 <= t < columns ==> row@[t] == u32::MAX,
{
    let mut row: Vec<u32> = Vec::new();
    let mut t: usize = 0;
    while t < columns
        invariant
            t <= columns,
            row@.len() == t,
            forall|u: int| 0 <= u < t ==> row@[u] == u32::MAX,
        decreases columns - t,
    {
        row.push(u32::MAX);
        t = t + 1;
    }
    row
}

impl TransitionMap {
    /// The dense table of `map`, which has the edges of `map` and no others.
    /// A map that uses `u32::MAX` as a state or a symbol is refused: that
    /// value marks the slots without an edge.
    pub fn from(map: FxHashMap<(u32, u32), u32>) -> (r: Result<TransitionMap, FsmError>)
        ensures
            r is Ok <==> ids_in_range(map@),
            r matches Err(e) ==> e == FsmError::InputInvalid,
            r matches Ok(table) ==> is_dense_table(map@, table@) && forall|s: int, t: int|
                table_edge(table@, s, t) == map_edge(map@, s, t),
    {
        let ghost edges = map@;
        let entries = transition_entries(map);
        TransitionMap::from_entries(&entries, Ghost(edges))
    }

    /// The dense table of the edges listed in `entries`.
    pub(crate) fn from_entries(
        entries: &Vec<((u32, u32), u32)>,
        Ghost(map): Ghost<Map<(u32, u32), u32>>,
    ) -> (r: Result<TransitionMap, FsmError>)
        requires
            lists_edges(map, entries@),
        ensures
            r is Ok <==> ids_in_range(map),
            r matches Err(e) ==> e == FsmError::InputInvalid,
            r matches Ok(table) ==> is_dense_table(map, table@) && forall|s: int, t: int|
                table_edge(table@, s, t) == map_edge(map, s, t),
    {
        let mut max_state: u32 = 0;
        let mut max_transition: u32 = 0;
        let mut i: usize = 0;
        while i < entries.len()
            invariant
                i <= entries@.len(),
                lists_edges(map, entries@),
                forall|j: int| 0 <= j < i ==> (#[trigger] entries@[j]).0.0 <= max_state,
                forall|j: int| 0 <= j < i ==> (#[trigger] entries@[j]).0.1 <= max_transition,
                forall|j: int| 0 <= j < i ==> (#[trigger] entries@[j]).1 < u32::MAX,
                max_state < u32::MAX,
                max_transition < u32::MAX,
                max_state > 0 ==> exists|j: int|
                    0 <= j < i && (#[trigger] entries@[j]).0.0 == max_state,
                max_transition > 0 ==> exists|j: int|
                    0 <= j < i && (#[trigger] entries@[j]).0.1 == max_transition,
            decreases entries@.len() - i,
        {
            let key = entries[i].0;
            if key.0 == u32::MAX || key.1 == u32::MAX || entries[i].1 == u32::MAX {
                return Err(FsmError::InputInvalid);
            }
            if key.0 > max_state {
                max_state = key.0;
            }
            if key.1 > max_transition {
                max_transition = key.1;
            }
            i = i + 1;
        }
        let rows: usize = max_state as usize + 1;
        let columns: usize = max_transition as usize + 1;
        let mut table: Vec<StateMap> = Vec::new();
        let mut s: usize = 0;
        while s < rows
            invariant
                s <= rows,
                table@.len() == s,
                forall|r: int| 0 <= r < s ==> (#[trigger] table@[r])@.len() == columns,
                forall|r: int, t: int|
                    0 <= r < s && 0 <= t < columns ==> #[trigger] table@[r]@[t] == u32::MAX,
            decreases rows - s,
        {
            table.push(StateMap { transitions: empty_row(columns) });
            s = s + 1;
        }
        let mut i: usize = 0;
        while i < entries.len()
            invariant
                i <= entries@.len(),
                rows == max_state + 1,
                columns == max_transition + 1,
                table@.len() == rows,
                lists_edges(map, entries@),
                forall|j: int|
                    0 <= j < entries@.len() ==> (#[trigger] entries@[j]).0.0 <= max_state,
                forall|j: int|
                    0 <= j < entries@.len() ==> (#[trigger] entries@[j]).0.1 <= max_transition,
                forall|r: int| 0 <= r < rows ==> (#[trigger] table@[r])@.len() == columns,
                forall|j: int|
                    0 <= j < i ==> table@[(#[trigger] entries@[j]).0.0 as int]@[entries@[j].0.1 as int]
                        == entries@[j].1,
                forall|r: int, t: int|
                    0 <= r < rows && 0 <= t < columns && (forall|j: int|
                        0 <= j < i ==> (#[trigger] entries@[j]).0 != (r as u32, t as u32))
                        ==> #[trigger] table@[r]@[t] == u32::MAX,
            decreases entries@.len() - i,
        {
            let key = entries[i].0;
            let target = entries[i].1;
            table[key.0 as usize].transitions[key.1 as usize] = target;
            i = i + 1;
        }
        let ghost rows = table@;
        let r = TransitionMap { transitions: store_rows(table) };
        assert(r@ =~= Seq::new(rows.len(), |i: int| rows[i]@));
        proof {
            assert forall|s: int, t: int|
                0 <= s < r@.len() && 0 <= t < r@[s].len() implies #[trigger] r@[s][t] == dense_slot(
                map,
                s,
                t,
            ) by {
                let k = (s as u32, t as u32);
                if map.contains_key(k) {
                    let j = choose|j: int| 0 <= j < entries@.len() && #[trigger] entries@[j].0 == k;
                    assert(r@[s][t] == entries@[j].1);
                }
            }
            assert forall|s: int, t: int| table_edge(r@, s, t) == map_edge(map, s, t) by {
            }
        }
        Ok(r)
    }

    /// The number of rows.
    pub fn len(&self) -> (n: usize)
        ensures
            n == self@.len(),
    {
        stored_len(&self.transitions)
    }

    /// The row of `state`, or `None` where the table has no such row.
    pub fn get_state(&self, state: usize) -> (r: Option<&StateMap>)
        ensures
            match r {
                Some(row) => state < self@.len() && row@ == self@[state as int],
                None => state >= self@.len(),
            },
    {
        stored_row(&self.transitions, state)
    }

    /// The state reached from `state` over `transition`, or `None` where the
    /// table has no such edge.
    pub fn get_transition(&self, state: usize, transition: usize) -> (r: Option<u32>)
        ensures
            r == table_edge(self@, state as int, transition as int),
    {
        match self.get_state(state) {
            Some(row) => row.get(transition),
            None => None,
        }
    }

    /// The slots of the row of `state` in order, those without an edge
    /// included, or `None` where the table has no such row.
    pub fn iter_state(&self, state: usize) -> (r: Option<Vec<u32>>)
        ensures
            match r {
                Some(row) => state < self@.len() && row@ == self@[state as int],
                None => state >= self@.len(),
            },
    {
        match self.get_state(state) {
            Some(row) => Some(row.transitions.clone()),
            None => None,
        }
    }

    /// The states that have a row, in ascending order.
    pub fn states(&self) -> (r: Vec<usize>)
        ensures
            r@.len() == self@.len(),
            forall|i: int| 0 <= i < r@.len() ==> r@[i] == i,
    {
        let rows = self.len();
        let mut out: Vec<usize> = Vec::new();
        let mut s: usize = 0;
        while s < rows
            invariant
                s <= rows,
                out@.len() == s,
                forall|i: int| 0 <= i < s ==> out@[i] == i,
            decreases rows - s,
        {
            out.push(s);
            s = s + 1;
        }
        out
    }
}

/// A deterministic finite automaton over symbols, with the alphabet that
/// turns characters into symbols. This is what an `FSMInfo` stands for.
pub struct Automaton {
    /// The state in which every walk starts.
    pub initial: u32,
    /// The accepting states.
    pub finals: Seq<u32>,
    /// The dense transition table.
    pub table: Seq<Seq<u32>>,
    /// The symbol of each character that the pattern names.
    pub alphabet: Map<char, u32>,
    /// The symbol of every other character.
    pub anything: u32,
    /// The number of states; the states are `0 .. states`.
    pub states: nat,
    /// The pattern that the automaton was compiled from.
    pub pattern: Seq<char>,
}

impl Automaton {
    /// The edge from `state` over `symbol`, if any.
    pub open spec fn edge(self, state: u32, symbol: u32) -> Option<u32> {
        table_edge(self.table, state as int, symbol as int)
    }

    /// The symbol that stands for `c`.
    pub open spec fn symbol(self, c: char) -> u32 {
        if self.alphabet.contains_key(c) {
            self.alphabet[c]
        } else {
            self.anything
        }
    }

    /// The symbols that stand for the characters of `token`.
    pub open spec fn symbols(self, token: Seq<char>) -> Seq<u32> {
        Seq::new(token.len(), |i: int| self.symbol(token[i]))
    }

    /// Whether `state` is accepting.
    pub open spec fn is_final(self, state: u32) -> bool {
        self.finals.contains(state)
    }

    /// Every state that the automaton names is one of `0 .. states`, and a
    /// state fits the signed ids that a generator is handed.
    pub open spec fn wf(self) -> bool {
        &&& self.states <= 0x8000_0000
        &&& self.initial < self.states
        &&& forall|i: int| 0 <= i < self.finals.len() ==> #[trigger] self.finals[i] < self.states
        &&& self.table.len() <= self.states
        &&& forall|s: int, t: int|
            (#[trigger] table_edge(self.table, s, t)) matches Some(next) ==> next < self.states
    }
}

/// Every state named by the three is small enough for a signed id.
pub open spec fn states_in_range(
    initial: u32,
    finals: Seq<u32>,
    transitions: Map<(u32, u32), u32>,
) -> bool {
    &&& initial <= i32::MAX
    &&& forall|i: int| 0 <= i < finals.len() ==> #[trigger] finals[i] <= i32::MAX
    &&& forall|k: (u32, u32)| #[trigger]
        transitions.contains_key(k) ==> k.0 <= i32::MAX && transitions[k] <= i32::MAX
}

/// `state` is named by one of the three.
pub open spec fn names_state(
    initial: u32,
    finals: Seq<u32>,
    transitions: Map<(u32, u32), u32>,
    state: int,
) -> bool {
    ||| initial == state
    ||| exists|i: int| 0 <= i < finals.len() && #[trigger] finals[i] == state
    ||| exists|k: (u32, u32)| #[trigger]
        transitions.contains_key(k) && (k.0 == state || transitions[k] == state)
}

/// `states` is one more than the largest state that the three name.
pub open spec fn is_state_count(
    initial: u32,
    finals: Seq<u32>,
    transitions: Map<(u32, u32), u32>,
    states: int,
) -> bool {
    &&& names_state(initial, finals, transitions, states - 1)
    &&& forall|s: int| #[trigger] names_state(initial, finals, transitions, s) ==> s < states
}

/// Every key of the alphabet is one character long.
pub open spec fn keys_are_characters(alphabet: Map<String, u32>) -> bool {
    forall|k: String| #[trigger] alphabet.contains_key(k) ==> k@.len() == 1
}

/// `characters` holds what `alphabet` holds, with each key's one character in
/// the key's place.
pub open spec fn is_character_map(alphabet: Map<String, u32>, characters: Map<char, u32>) -> bool {
    &&& forall|k: String| #[trigger]
        alphabet.contains_key(k) ==> k@.len() == 1 && characters.contains_key(k@[0])
            && characters[k@[0]] == alphabet[k]
    &&& forall|c: char| #[trigger]
        characters.contains_key(c) ==> exists|k: String| #[trigger]
            alphabet.contains_key(k) && k@ == seq![c]
}

/// Whether `needle` occurs in `haystack`.
pub fn contains_state(haystack: &Vec<u32>, needle: u32) -> (found: bool)
    ensures
        found == haystack@.contains(needle),
{
    let mut i: usize = 0;
    while i < haystack.len()
        invariant
            i <= haystack@.len(),
            forall|j: int| 0 <= j < i ==> haystack@[j] != needle,
        decreases haystack@.len() - i,
    {
        if haystack[i] == needle {
            return true;
        }
        i = i + 1;
    }
    false
}

/// Two characters with the same code are the same character.
pub proof fn lemma_code_names_character(a: char, b: char)
    ensures
        a as u32 == b as u32 ==> a == b,
{
}

/// The automaton of a pattern, checked on construction.
pub struct FSMInfo {
    initial: u32,
    finals: Vec<u32>,
    transitions: TransitionMap,
    alphabet_symbol_mapping: FxHashMap<u32, u32>,
    alphabet_anything_value: u32,
    states: usize,
    pattern: String,
}

impl View for FSMInfo {
    type V = Automaton;

    closed spec fn view(&self) -> Automaton {
        Automaton {
            initial: self.initial,
            finals: self.finals@,
            table: self.transitions@,
            alphabet: Map::new(
                |c: char| self.alphabet_symbol_mapping@.contains_key(c as u32),
                |c: char| self.alphabet_symbol_mapping@[c as u32],
            ),
            anything: self.alphabet_anything_value,
            states: self.states as nat,
            pattern: self.pattern@,
        }
    }
}

impl FSMInfo {
    #[verifier::type_invariant]
    closed spec fn inv(&self) -> bool {
        self@.wf()
    }

    /// The automaton with the given parts. It is refused where a state is
    /// too large for a signed id, where `u32::MAX` stands for a symbol, or
    /// where a key of the alphabet is not exactly one character.
    #[verifier::loop_isolation(false)]
    pub fn new(
        initial: u32,
        finals: Vec<u32>,
        transitions: FxHashMap<(u32, u32), u32>,
        alphabet_symbol_mapping: FxHashMap<String, u32>,
        alphabet_anything_value: u32,
        pattern: String,
    ) -> (r: Result<FSMInfo, FsmError>)
        ensures
            r is Ok <==> states_in_range(initial, finals@, transitions@) && ids_in_range(
                transitions@,
            ) && keys_are_characters(alphabet_symbol_mapping@),
            r matches Err(e) ==> e == FsmError::InputInvalid,
            r matches Ok(fsm) ==> {
                &&& fsm@.wf()
                &&& fsm@.initial == initial
                &&& fsm@.finals == finals@
                &&& forall|s: int, t: int| table_edge(fsm@.table, s, t) == map_edge(transitions@, s, t)
                &&& is_character_map(alphabet_symbol_mapping@, fsm@.alphabet)
                &&& fsm@.anything == alphabet_anything_value
                &&& fsm@.pattern == pattern@
                &&& is_state_count(initial, finals@, transitions@, fsm@.states as int)
            },
    {
        let ghost edges = transitions@;
        let ghost letters = alphabet_symbol_mapping@;
        if initial > i32::MAX as u32 {
            return Err(FsmError::InputInvalid);
        }
        let mut top: u32 = initial;
        let mut i: usize = 0;
        while i < finals.len()
            invariant
                i <= finals@.len(),
                top <= i32::MAX,
                initial <= top,
                forall|j: int| 0 <= j < i ==> #[trigger] finals@[j] <= top,
                top == initial || exists|j: int| 0 <= j < i && #[trigger] finals@[j] == top,
            decreases finals@.len() - i,
        {
            if finals[i] > i32::MAX as u32 {
                return Err(FsmError::InputInvalid);
            }
            if finals[i] > top {
                top = finals[i];
            }
            i = i + 1;
        }
        let entries = transition_entries(transitions);
        let mut i: usize = 0;
        while i < entries.len()
            invariant
                i <= entries@.len(),
                lists_edges(edges, entries@),
                top <= i32::MAX,
                initial <= top,
                forall|j: int| 0 <= j < finals@.len() ==> #[trigger] finals@[j] <= top,
                forall|j: int|
                    0 <= j < i ==> (#[trigger] entries@[j]).0.0 <= top && entries@[j].1 <= top,
                names_state(initial, finals@, edges, top as int),
            decreases entries@.len() - i,
        {
            let key = entries[i].0;
            let target = entries[i].1;
            assert(edges.contains_key(entries@[i as int].0));
            if key.0 > i32::MAX as u32 || target > i32::MAX as u32 {
                return Err(FsmError::InputInvalid);
            }
            if key.0 > top {
                top = key.0;
            }
            if target > top {
                top = target;
            }
            i = i + 1;
        }
        let table = match TransitionMap::from_entries(&entries, Ghost(edges)) {
            Ok(table) => table,
            Err(e) => {
                return Err(e);
            },
        };
        let letters_in = text_entries(alphabet_symbol_mapping);
        let mut alphabet: FxHashMap<u32, u32> = new_map();
        let mut i: usize = 0;
        while i < letters_in.len()
            invariant
                i <= letters_in@.len(),
                forall|j: int|
                    0 <= j < letters_in@.len() ==> letters.contains_key(#[trigger] letters_in@[j].0,
                    ) && letters[letters_in@[j].0] == letters_in@[j].1,
                forall|a: int, b: int|
                    0 <= a < b < letters_in@.len() ==> (#[trigger] letters_in@[a]).0@
                        != (#[trigger] letters_in@[b]).0@,
                forall|j: int| 0 <= j < i ==> (#[trigger] letters_in@[j]).0@.len() == 1,
                forall|j: int|
                    0 <= j < i ==> alphabet@.contains_key((#[trigger] letters_in@[j]).0@[0] as u32)
                        && alphabet@[letters_in@[j].0@[0] as u32] == letters_in@[j].1,
                forall|code: u32| #[trigger]
                    alphabet@.contains_key(code) ==> exists|j: int|
                        0 <= j < i && (#[trigger] letters_in@[j]).0@[0] as u32 == code,
            decreases letters_in@.len() - i,
        {
            let key = letters_in[i].0.as_str();
            assert(letters.contains_key(letters_in@[i as int].0));
            if key.unicode_len() != 1 {
                return Err(FsmError::InputInvalid);
            }
            let c = key.get_char(0);
            proof {
                assert forall|j: int| 0 <= j < i implies (#[trigger] letters_in@[j]).0@[0] as u32
                    != c as u32 by {
                    assert(letters_in@[j].0@ =~= seq![letters_in@[j].0@[0]]);
                    assert(letters_in@[i as int].0@ =~= seq![c]);
                    lemma_code_names_character(letters_in@[j].0@[0], c);
                }
            }
            map_insert(&mut alphabet, c as u32, letters_in[i].1);
            i = i + 1;
        }
        let fsm = FSMInfo {
            initial,
            finals,
            transitions: table,
            alphabet_symbol_mapping: alphabet,
            alphabet_anything_value,
            states: top as usize + 1,
            pattern,
        };
        proof {
            let a = fsm@;
            assert forall|s: int, t: int|
                (#[trigger] table_edge(a.table, s, t)) is Some implies table_edge(
                a.table,
                s,
                t,
            )->0 < a.states by {
                assert(table_edge(a.table, s, t) == map_edge(edges, s, t));
                let k = (s as u32, t as u32);
                let j = choose|j: int| 0 <= j < entries@.len() && #[trigger] entries@[j].0 == k;
                assert(entries@[j].1 <= top);
            }
            assert forall|s: int| #[trigger]
                names_state(initial, finals@, edges, s) implies s < a.states by {
                if exists|k: (u32, u32)| #[trigger]
                    edges.contains_key(k) && (k.0 == s || edges[k] == s) {
                    let k = choose|k: (u32, u32)| #[trigger]
                        edges.contains_key(k) && (k.0 == s || edges[k] == s);
                    let j = choose|j: int| 0 <= j < entries@.len() && #[trigger] entries@[j].0 == k;
                    assert(entries@[j].1 <= top);
                }
            }
            assert forall|k: String| #[trigger] letters.contains_key(k) implies k@.len() == 1
                && a.alphabet.contains_key(k@[0]) && a.alphabet[k@[0]] == letters[k] by {
                let j = choose|j: int| 0 <= j < letters_in@.len() && #[trigger] letters_in@[j].0 == k;
                assert(letters_in@[j].0@.len() == 1);
            }
            assert forall|c: char| #[trigger] a.alphabet.contains_key(c) implies exists|k: String|
                #[trigger] letters.contains_key(k) && k@ == seq![c] by {
                let j = choose|j: int|
                    0 <= j < letters_in@.len() && (#[trigger] letters_in@[j]).0@[0] as u32 == c as u32;
                lemma_code_names_character(letters_in@[j].0@[0], c);
                assert(letters_in@[j].0@ =~= seq![c]);
                assert(letters.contains_key(letters_in@[j].0));
            }
            assert(a.wf());
            assert(is_character_map(letters, a.alphabet));
            assert(is_state_count(initial, finals@, edges, a.states as int));
        }
        Ok(fsm)
    }

    /// The state in which every walk starts.
    pub fn initial(&self) -> (r: u32)
        ensures
            r == self@.initial,
            self@.wf(),
    {
        proof {
            use_type_invariant(self);
        }
        self.initial
    }

    /// The accepting states.
    pub fn finals(&self) -> (r: &Vec<u32>)
        ensures
            r@ == self@.finals,
            self@.wf(),
    {
        proof {
            use_type_invariant(self);
        }
        &self.finals
    }

    /// The transition table.
    pub fn transitions(&self) -> (r: &TransitionMap)
        ensures
            r@ == self@.table,
            self@.wf(),
    {
        proof {
            use_type_invariant(self);
        }
        &self.transitions
    }

    /// The symbol of every character that the alphabet does not name.
    pub fn alphabet_anything_value(&self) -> (r: u32)
        ensures
            r == self@.anything,
    {
        self.alphabet_anything_value
    }

    /// The number of states.
    pub fn states(&self) -> (r: usize)
        ensures
            r == self@.states,
            self@.wf(),
    {
        proof {
            use_type_invariant(self);
        }
        self.states
    }

    /// The pattern that the automaton was compiled from.
    pub fn pattern(&self) -> (r: &String)
        ensures
            r@ == self@.pattern,
    {
        &self.pattern
    }

    /// The symbol that stands for `c`: the one that the alphabet gives it, or
    /// the symbol of all other characters.
    pub fn symbol(&self, c: char) -> (r: u32)
        ensures
            r == self@.symbol(c),
    {
        match map_get(&self.alphabet_symbol_mapping, c as u32) {
            Some(symbol) => *symbol,
            None => self.alphabet_anything_value,
        }
    }

    /// Whether `state` is accepting.
    pub fn is_final(&self, state: u32) -> (r: bool)
        ensures
            r == self@.is_final(state),
    {
        contains_state(&self.finals, state)
    }
}

/// The instruction to emit the given tokens in order.
#[derive(Debug)]
pub struct Write {
    /// The tokens to emit.
    pub tokens: Vec<i32>,
}

impl Write {
    /// The instruction to emit `tokens`.
    pub fn new(tokens: Vec<i32>) -> (r: Write)
        ensures
            r.tokens == tokens,
    {
        Write { tokens }
    }
}

/// The instruction to sample the next token from the given ones, or from all
/// tokens where none are given.
#[derive(Debug)]
pub struct Generate {
    /// The tokens to sample from.
    pub tokens: Option<Vec<i32>>,
}

impl Generate {
    /// The instruction to sample from `tokens`.
    pub fn new(tokens: Option<Vec<i32>>) -> (r: Generate)
        ensures
            r.tokens == tokens,
    {
        Generate { tokens }
    }
}

/// What a generator is to do next.
#[derive(Debug)]
pub enum Instruction {
    /// Emit fixed tokens.
    Write(Write),
    /// Sample a token.
    Generate(Generate),
}

} // verus!
