//! The index builder: which tokens each reachable state of the automaton
//! accepts, and where each of them leads.

use crate::bitset::{bit_seq, lowest_enabled};
use crate::maps::map_insert;
use crate::text::chars_of;
use crate::types::{table_edge, Automaton, FSMInfo};
use crate::vocab::{TokenVocabulary, Vocabulary};
use fixedbitset::FixedBitSet;
use rustc_hash::FxHashMap;
use vstd::prelude::*;

verus! {

/// The states that the automaton passes through while it consumes `keys`
/// from `start`, up to the first key for which it has no edge.
pub open spec fn trace(table: Seq<Seq<u32>>, start: u32, keys: Seq<u32>) -> Seq<u32>
    decreases keys.len(),
{
    if keys.len() == 0 {
        Seq::empty()
    } else {
        let before = trace(table, start, keys.drop_last());
        if before.len() == keys.len() - 1 {
            let at = if before.len() == 0 {
                start
            } else {
                before.last()
            };
            match table_edge(table, at as int, keys.last() as int) {
                Some(next) => before.push(next),
                None => before,
            }
        } else {
            before
        }
    }
}

/// How many of `states`, counted from the front, end with the last
/// accepting one; 0 where none is accepting.
pub open spec fn last_final(finals: Seq<u32>, states: Seq<u32>) -> nat
    decreases states.len(),
{
    if states.len() == 0 {
        0
    } else if finals.contains(states.last()) {
        states.len()
    } else {
        last_final(finals, states.drop_last())
    }
}

/// The outcome of a walk over `keys` from `start`.
///
/// Where an edge is missing, a partial match gives the states up to the last
/// accepting one and a full match gives nothing. Where every key is consumed,
/// a full match gives the states only if the last one is accepting.
pub open spec fn walk(
    automaton: Automaton,
    keys: Seq<u32>,
    start: u32,
    full_match: bool,
) -> Seq<u32> {
    let path = trace(automaton.table, start, keys);
    let accepted = last_final(automaton.finals, path);
    if path.len() < keys.len() {
        if !full_match && accepted > 0 {
            path.take(accepted as int)
        } else {
            Seq::empty()
        }
    } else if full_match && accepted != keys.len() {
        Seq::empty()
    } else {
        path
    }
}

/// A trace is never longer than its keys.
pub proof fn lemma_trace_len(table: Seq<Seq<u32>>, start: u32, keys: Seq<u32>)
    ensures
        trace(table, start, keys).len() <= keys.len(),
    decreases keys.len(),
{
    if keys.len() > 0 {
        lemma_trace_len(table, start, keys.drop_last());
    }
}

/// Once the automaton is stuck, more keys change nothing.
pub proof fn lemma_trace_stuck(table: Seq<Seq<u32>>, start: u32, keys: Seq<u32>, at: int)
    requires
        0 <= at <= keys.len(),
        trace(table, start, keys.take(at)).len() < at,
    ensures
        trace(table, start, keys) == trace(table, start, keys.take(at)),
    decreases keys.len() - at,
{
    if at < keys.len() {
        assert(keys.take(at + 1).drop_last() =~= keys.take(at));
        lemma_trace_stuck(table, start, keys, at + 1);
    } else {
        assert(keys.take(at) =~= keys);
    }
}

/// The last accepting state does not lie beyond the states.
pub proof fn lemma_last_final_len(finals: Seq<u32>, states: Seq<u32>)
    ensures
        last_final(finals, states) <= states.len(),
    decreases states.len(),
{
    if states.len() > 0 {
        lemma_last_final_len(finals, states.drop_last());
    }
}

/// The symbols of every vocabulary entry, in the vocabulary's order.
pub open spec fn token_keys(automaton: Automaton, vocabulary: Vocabulary) -> Seq<Seq<u32>> {
    Seq::new(vocabulary.entries.len(), |i: int| automaton.symbols(vocabulary.entries[i].0))
}

/// The symbols of every vocabulary entry, in the vocabulary's order: each
/// character's symbol from the alphabet, and the symbol for anything else
/// where the alphabet does not name the character.
pub fn create_vocab_transition_vector(
    fsm_info: &FSMInfo,
    vocabulary: &TokenVocabulary,
) -> (keys: Vec<Vec<u32>>)
    ensures
        keys.deep_view() == token_keys(fsm_info@, vocabulary@),
{
    let mut keys: Vec<Vec<u32>> = Vec::new();
    let mut i: usize = 0;
    while i < vocabulary.len()
        invariant
            i <= vocabulary@.entries.len(),
            keys@.len() == i,
            forall|j: int|
                0 <= j < i ==> (#[trigger] keys@[j])@ == fsm_info@.symbols(vocabulary@.entries[j].0),
        decreases vocabulary@.entries.len() - i,
    {
        let token = chars_of(vocabulary.token(i).as_str());
        let mut symbols: Vec<u32> = Vec::new();
        let mut j: usize = 0;
        while j < token.len()
            invariant
                j <= token@.len(),
                symbols@.len() == j,
                forall|k: int| 0 <= k < j ==> symbols@[k] == fsm_info@.symbol(token@[k]),
            decreases token@.len() - j,
        {
            symbols.push(fsm_info.symbol(token[j]));
            j = j + 1;
        }
        assert(symbols@ =~= fsm_info@.symbols(token@));
        keys.push(symbols);
        i = i + 1;
    }
    proof {
        assert forall|j: int| 0 <= j < keys@.len() implies #[trigger] keys.deep_view()[j]
            == token_keys(fsm_info@, vocabulary@)[j] by {
            assert(keys.deep_view()[j] =~= keys@[j]@);
        }
        assert(keys.deep_view() =~= token_keys(fsm_info@, vocabulary@));
    }
    keys
}

/// Walks the automaton from `start_state` over `token_transition_keys` and
/// returns the states passed through, as `walk` describes.
pub fn walk_fsm(
    fsm_info: &FSMInfo,
    token_transition_keys: &[u32],
    start_state: u32,
    full_match: bool,
) -> (states: Vec<u32>)
    ensures
        states@ == walk(fsm_info@, token_transition_keys@, start_state, full_match),
{
    let keys = token_transition_keys;
    let table = fsm_info.transitions();
    let finals = fsm_info.finals();
    let mut state = start_state;
    let mut accepted_states: Vec<u32> = Vec::new();
    let mut last_final_idx: usize = 0;
    let mut i: usize = 0;
    assert(keys@.take(0) =~= Seq::empty());
    while i < keys.len()
        invariant
            i <= keys@.len(),
            keys@ == token_transition_keys@,
            table@ == fsm_info@.table,
            finals@ == fsm_info@.finals,
            accepted_states@ == trace(table@, start_state, keys@.take(i as int)),
            accepted_states@.len() == i,
            state == (if i == 0 {
                start_state
            } else {
                accepted_states@.last()
            }),
            last_final_idx == last_final(finals@, accepted_states@),
        decreases keys@.len() - i,
    {
        proof {
            assert(keys@.take(i + 1).drop_last() =~= keys@.take(i as int));
            lemma_last_final_len(finals@, accepted_states@);
        }
        match table.get_transition(state as usize, keys[i] as usize) {
            Some(new_state) => {
                state = new_state;
                let ghost before = accepted_states@;
                accepted_states.push(state);
                assert(accepted_states@.drop_last() =~= before);
                if crate::types::contains_state(finals, state) {
                    last_final_idx = i + 1;
                }
            },
            None => {
                proof {
                    assert(trace(table@, start_state, keys@.take(i + 1)) == accepted_states@);
                    lemma_trace_stuck(table@, start_state, keys@, i + 1);
                    lemma_last_final_len(finals@, accepted_states@);
                }
                if !full_match && last_final_idx > 0 {
                    accepted_states.truncate(last_final_idx);
                    return accepted_states;
                }
                return Vec::new();
            },
        }
        i = i + 1;
    }
    assert(keys@.take(i as int) =~= keys@);
    if full_match && last_final_idx != keys.len() {
        return Vec::new();
    }
    accepted_states
}

/// The state in which a token leaves the automaton: the last state of a
/// partial-match walk that consumed every key. A token without keys leaves
/// no state behind, and neither does one that the automaton gets stuck on.
pub open spec fn end_state(automaton: Automaton, keys: Seq<u32>, start: u32) -> Option<u32> {
    let states = walk(automaton, keys, start, false);
    if keys.len() > 0 && states.len() == keys.len() {
        Some(states.last())
    } else {
        None
    }
}

/// A token leaves the automaton in a state exactly if the automaton has an
/// edge for each of its keys in turn, and that state is where the last edge
/// leads.
pub proof fn lemma_end_state_is_simulation(automaton: Automaton, keys: Seq<u32>, start: u32)
    ensures
        end_state(automaton, keys, start) == (if keys.len() > 0 && trace(
            automaton.table,
            start,
            keys,
        ).len() == keys.len() {
            Some(trace(automaton.table, start, keys).last())
        } else {
            None::<u32>
        }),
{
    lemma_trace_len(automaton.table, start, keys);
    lemma_last_final_len(automaton.finals, trace(automaton.table, start, keys));
}

/// The pairs that one vocabulary entry gives: each of its ids with the state
/// in which the token leaves the automaton.
pub open spec fn emitted(ids: Seq<u32>, end: Option<u32>) -> Seq<(u32, u32)> {
    match end {
        Some(state) => Seq::new(ids.len(), |j: int| (ids[j], state)),
        None => Seq::empty(),
    }
}

/// The pairs that the first `n` vocabulary entries give, in order.
pub open spec fn scan_prefix(
    automaton: Automaton,
    vocabulary: Seq<Seq<u32>>,
    keys: Seq<Seq<u32>>,
    start: u32,
    n: nat,
) -> Seq<(u32, u32)>
    decreases n,
{
    if n == 0 {
        Seq::empty()
    } else {
        let i = n - 1;
        scan_prefix(automaton, vocabulary, keys, start, i as nat) + emitted(
            vocabulary[i],
            end_state(automaton, keys[i], start),
        )
    }
}

/// The number of vocabulary entries that have both ids and keys.
pub open spec fn paired(vocabulary: Seq<Seq<u32>>, keys: Seq<Seq<u32>>) -> nat {
    if vocabulary.len() <= keys.len() {
        vocabulary.len()
    } else {
        keys.len()
    }
}

/// The `(token id, next state)` pairs of `start`: for every vocabulary entry
/// whose token the automaton consumes whole from `start`, each id of the
/// entry with the state reached.
pub open spec fn scan(
    automaton: Automaton,
    vocabulary: Seq<Seq<u32>>,
    keys: Seq<Seq<u32>>,
    start: u32,
) -> Seq<(u32, u32)> {
    scan_prefix(automaton, vocabulary, keys, start, paired(vocabulary, keys))
}

/// Every pair of a scan comes from an entry: the id is one of the entry's,
/// and the state is where the entry's token leaves the automaton.
pub proof fn lemma_scan_pair(
    automaton: Automaton,
    vocabulary: Seq<Seq<u32>>,
    keys: Seq<Seq<u32>>,
    start: u32,
    n: nat,
    k: int,
)
    requires
        n <= paired(vocabulary, keys),
        0 <= k < scan_prefix(automaton, vocabulary, keys, start, n).len(),
    ensures
        exists|i: int, j: int|
            0 <= i < n && 0 <= j < vocabulary[i].len() && #[trigger] vocabulary[i][j]
                == scan_prefix(automaton, vocabulary, keys, start, n)[k].0 && end_state(
                automaton,
                #[trigger] keys[i],
                start,
            ) == Some(scan_prefix(automaton, vocabulary, keys, start, n)[k].1),
    decreases n,
{
    let i = n - 1;
    let before = scan_prefix(automaton, vocabulary, keys, start, i as nat);
    if k < before.len() {
        lemma_scan_pair(automaton, vocabulary, keys, start, i as nat, k);
    } else {
        let j = k - before.len();
        assert(vocabulary[i][j] == scan_prefix(automaton, vocabulary, keys, start, n)[k].0);
    }
}

/// The pairs of `start_state`: walks the automaton over the keys of every
/// vocabulary entry and, where the whole token is consumed, gives each id of
/// the entry with the state reached.
pub fn state_scan_tokens(
    fsm_info: &FSMInfo,
    vocabulary: &Vec<Vec<u32>>,
    vocabulary_transition_keys: &Vec<Vec<u32>>,
    start_state: u32,
) -> (pairs: Vec<(u32, u32)>)
    ensures
        pairs@ == scan(
            fsm_info@,
            vocabulary.deep_view(),
            vocabulary_transition_keys.deep_view(),
            start_state,
        ),
{
    let ghost ids = vocabulary.deep_view();
    let ghost keys = vocabulary_transition_keys.deep_view();
    let entries = if vocabulary.len() <= vocabulary_transition_keys.len() {
        vocabulary.len()
    } else {
        vocabulary_transition_keys.len()
    };
    let mut pairs: Vec<(u32, u32)> = Vec::new();
    let mut i: usize = 0;
    while i < entries
        invariant
            i <= entries,
            entries == paired(ids, keys),
            ids == vocabulary.deep_view(),
            keys == vocabulary_transition_keys.deep_view(),
            pairs@ == scan_prefix(fsm_info@, ids, keys, start_state, i as nat),
        decreases entries - i,
    {
        let token_transition_keys = &vocabulary_transition_keys[i];
        let token_ids = &vocabulary[i];
        assert(token_transition_keys@ == keys[i as int]);
        assert(token_ids@ == ids[i as int]);
        let state_seq = walk_fsm(fsm_info, token_transition_keys.as_slice(), start_state, false);
        let ghost before = pairs@;
        let ghost end = end_state(fsm_info@, keys[i as int], start_state);
        if token_transition_keys.len() > 0 && state_seq.len() == token_transition_keys.len() {
            let last_state = state_seq[state_seq.len() - 1];
            let mut j: usize = 0;
            while j < token_ids.len()
                invariant
                    j <= token_ids@.len(),
                    end == Some(last_state),
                    token_ids@ == ids[i as int],
                    pairs@ == before + emitted(ids[i as int], end).take(j as int),
                decreases token_ids@.len() - j,
            {
                pairs.push((token_ids[j], last_state));
                assert(emitted(ids[i as int], end).take(j + 1) =~= emitted(ids[i as int], end).take(
                    j as int,
                ).push((token_ids@[j as int], last_state)));
                j = j + 1;
            }
            assert(emitted(ids[i as int], end).take(j as int) =~= emitted(ids[i as int], end));
        } else {
            assert(pairs@ =~= before + emitted(ids[i as int], end));
        }
        i = i + 1;
    }
    pairs
}

/// The `(token id, next state)` pairs of `state` under a vocabulary.
pub open spec fn state_pairs(automaton: Automaton, vocabulary: Vocabulary, state: u32) -> Seq<
    (u32, u32),
> {
    scan(automaton, vocabulary.ids(), token_keys(automaton, vocabulary), state)
}

/// `map` after each pair was put into it in turn, the first component as the
/// key.
pub open spec fn insert_pairs(map: Map<u32, u32>, pairs: Seq<(u32, u32)>) -> Map<u32, u32>
    decreases pairs.len(),
{
    if pairs.len() == 0 {
        map
    } else {
        insert_pairs(map, pairs.drop_last()).insert(pairs.last().0, pairs.last().1)
    }
}

/// The transition map of `state`: for each token id that may follow, the
/// state that it leads to.
pub open spec fn state_map(automaton: Automaton, vocabulary: Vocabulary, state: u32) -> Map<
    u32,
    u32,
> {
    insert_pairs(Map::empty(), state_pairs(automaton, vocabulary, state))
}

/// A key of a map that was filled from empty by pairs is the first
/// component of one of the pairs, and its value is the second.
pub proof fn lemma_inserted_pair(pairs: Seq<(u32, u32)>, token_id: u32)
    requires
        insert_pairs(Map::empty(), pairs).contains_key(token_id),
    ensures
        exists|k: int|
            0 <= k < pairs.len() && #[trigger] pairs[k] == (
                token_id,
                insert_pairs(Map::empty(), pairs)[token_id],
            ),
    decreases pairs.len(),
{
    if pairs.len() > 0 {
        if pairs.last().0 == token_id {
            assert(pairs[pairs.len() - 1] == (
                token_id,
                insert_pairs(Map::empty(), pairs)[token_id],
            ));
        } else {
            lemma_inserted_pair(pairs.drop_last(), token_id);
            let k = choose|k: int|
                0 <= k < pairs.drop_last().len() && #[trigger] pairs.drop_last()[k] == (
                    token_id,
                    insert_pairs(Map::empty(), pairs.drop_last())[token_id],
                );
            assert(pairs[k] == pairs.drop_last()[k]);
        }
    }
}

/// The map of a state agrees with the automaton: a token id in the map of
/// `state` is an id of a vocabulary entry whose token the automaton consumes
/// whole from `state`, symbol by symbol, and the map gives the state in which
/// that walk ends.
pub proof fn lemma_map_agrees_with_transitions(
    automaton: Automaton,
    vocabulary: Vocabulary,
    state: u32,
    token_id: u32,
)
    requires
        state_map(automaton, vocabulary, state).contains_key(token_id),
    ensures
        exists|i: int, j: int|
            {
                let symbols = automaton.symbols(vocabulary.entries[i].0);
                let states = trace(automaton.table, state, symbols);
                &&& 0 <= i < vocabulary.entries.len()
                &&& 0 <= j < vocabulary.entries[i].1.len()
                &&& #[trigger] vocabulary.entries[i].1[j] == token_id
                &&& symbols.len() > 0
                &&& states.len() == symbols.len()
                &&& states.last() == state_map(automaton, vocabulary, state)[token_id]
            },
{
    let ids = vocabulary.ids();
    let keys = token_keys(automaton, vocabulary);
    let pairs = state_pairs(automaton, vocabulary, state);
    let next = state_map(automaton, vocabulary, state)[token_id];
    lemma_inserted_pair(pairs, token_id);
    let k = choose|k: int| 0 <= k < pairs.len() && #[trigger] pairs[k] == (token_id, next);
    lemma_scan_pair(automaton, ids, keys, state, paired(ids, keys), k);
    let (i, j) = choose|i: int, j: int|
        0 <= i < paired(ids, keys) && 0 <= j < ids[i].len() && #[trigger] ids[i][j] == scan_prefix(
            automaton,
            ids,
            keys,
            state,
            paired(ids, keys),
        )[k].0 && end_state(automaton, #[trigger] keys[i], state) == Some(
            scan_prefix(automaton, ids, keys, state, paired(ids, keys))[k].1,
        );
    lemma_end_state_is_simulation(automaton, keys[i], state);
    assert(vocabulary.entries[i].1[j] == token_id);
}

/// Some token leads from `from` to `to`.
pub open spec fn successor(automaton: Automaton, vocabulary: Vocabulary, from: u32, to: u32) -> bool {
    exists|k: int|
        0 <= k < state_pairs(automaton, vocabulary, from).len() && (#[trigger] state_pairs(
            automaton,
            vocabulary,
            from,
        )[k]).1 == to
}

/// `path` starts in the initial state and goes on from state to state by
/// tokens.
pub open spec fn is_path(automaton: Automaton, vocabulary: Vocabulary, path: Seq<u32>) -> bool {
    &&& path.len() > 0
    &&& path[0] == automaton.initial
    &&& forall|i: int|
        0 < i < path.len() ==> successor(automaton, vocabulary, path[i - 1], #[trigger] path[i])
}

/// A sequence of tokens leads from the initial state to `state`.
pub open spec fn reachable(automaton: Automaton, vocabulary: Vocabulary, state: u32) -> bool {
    exists|path: Seq<u32>| #[trigger] is_path(automaton, vocabulary, path) && path.last() == state
}

/// Where the automaton consumes all of a token, the state reached is the
/// target of an edge.
proof fn lemma_end_state_in_range(automaton: Automaton, keys: Seq<u32>, start: u32)
    requires
        automaton.wf(),
        end_state(automaton, keys, start) is Some,
    ensures
        end_state(automaton, keys, start)->0 < automaton.states,
{
    lemma_end_state_is_simulation(automaton, keys, start);
    let before = trace(automaton.table, start, keys.drop_last());
    lemma_trace_len(automaton.table, start, keys.drop_last());
    let at = if before.len() == 0 {
        start
    } else {
        before.last()
    };
    assert(table_edge(automaton.table, at as int, keys.last() as int) is Some);
}

/// Every state that a token leads to is a state of the automaton.
pub proof fn lemma_pairs_in_range(automaton: Automaton, vocabulary: Vocabulary, from: u32, k: int)
    requires
        automaton.wf(),
        0 <= k < state_pairs(automaton, vocabulary, from).len(),
    ensures
        state_pairs(automaton, vocabulary, from)[k].1 < automaton.states,
{
    let ids = vocabulary.ids();
    let keys = token_keys(automaton, vocabulary);
    lemma_scan_pair(automaton, ids, keys, from, paired(ids, keys), k);
    let (i, j) = choose|i: int, j: int|
        0 <= i < paired(ids, keys) && 0 <= j < ids[i].len() && #[trigger] ids[i][j] == scan_prefix(
            automaton,
            ids,
            keys,
            from,
            paired(ids, keys),
        )[k].0 && end_state(automaton, #[trigger] keys[i], from) == Some(
            scan_prefix(automaton, ids, keys, from, paired(ids, keys))[k].1,
        );
    lemma_end_state_in_range(automaton, keys[i], from);
}

/// Every state that the map of a state leads to is a state of the automaton.
pub proof fn lemma_state_map_in_range(
    automaton: Automaton,
    vocabulary: Vocabulary,
    state: u32,
    token_id: u32,
)
    requires
        automaton.wf(),
        state_map(automaton, vocabulary, state).contains_key(token_id),
    ensures
        state_map(automaton, vocabulary, state)[token_id] < automaton.states,
{
    let pairs = state_pairs(automaton, vocabulary, state);
    lemma_inserted_pair(pairs, token_id);
    let k = choose|k: int|
        0 <= k < pairs.len() && #[trigger] pairs[k] == (
            token_id,
            insert_pairs(Map::empty(), pairs)[token_id],
        );
    lemma_pairs_in_range(automaton, vocabulary, state, k);
}

/// A reachable state is a state of the automaton.
pub proof fn lemma_reachable_in_range(automaton: Automaton, vocabulary: Vocabulary, state: u32)
    requires
        automaton.wf(),
        reachable(automaton, vocabulary, state),
    ensures
        state < automaton.states,
{
    let path = choose|path: Seq<u32>| #[trigger]
        is_path(automaton, vocabulary, path) && path.last() == state;
    if path.len() > 1 {
        let i = path.len() - 1;
        assert(successor(automaton, vocabulary, path[i - 1], path[i]));
        let k = choose|k: int|
            0 <= k < state_pairs(automaton, vocabulary, path[i - 1]).len() && (#[trigger] state_pairs(
                automaton,
                vocabulary,
                path[i - 1],
            )[k]).1 == path[i];
        lemma_pairs_in_range(automaton, vocabulary, path[i - 1], k);
    }
}

/// A successor of a reachable state is reachable.
pub proof fn lemma_reachable_step(automaton: Automaton, vocabulary: Vocabulary, from: u32, to: u32)
    requires
        reachable(automaton, vocabulary, from),
        successor(automaton, vocabulary, from, to),
    ensures
        reachable(automaton, vocabulary, to),
{
    let path = choose|path: Seq<u32>| #[trigger]
        is_path(automaton, vocabulary, path) && path.last() == from;
    let longer = path.push(to);
    assert forall|i: int| 0 < i < longer.len() implies successor(
        automaton,
        vocabulary,
        longer[i - 1],
        #[trigger] longer[i],
    ) by {
        if i < path.len() {
            assert(successor(automaton, vocabulary, path[i - 1], path[i]));
        }
    }
    assert(is_path(automaton, vocabulary, longer) && longer.last() == to);
}

/// The initial state is reachable.
pub proof fn lemma_initial_reachable(automaton: Automaton, vocabulary: Vocabulary)
    ensures
        reachable(automaton, vocabulary, automaton.initial),
{
    let path = seq![automaton.initial];
    assert(is_path(automaton, vocabulary, path) && path.last() == automaton.initial);
}

/// The number of bits that are not enabled.
pub open spec fn count_disabled(bits: Seq<bool>) -> nat
    decreases bits.len(),
{
    if bits.len() == 0 {
        0
    } else {
        count_disabled(bits.drop_last()) + if bits.last() {
            0nat
        } else {
            1nat
        }
    }
}

/// Enabling a bit that was not enabled leaves one fewer.
pub proof fn lemma_count_disabled_update(bits: Seq<bool>, bit: int)
    requires
        0 <= bit < bits.len(),
        !bits[bit],
    ensures
        count_disabled(bits.update(bit, true)) + 1 == count_disabled(bits),
    decreases bits.len(),
{
    let after = bits.update(bit, true);
    if bit == bits.len() - 1 {
        assert(after.drop_last() =~= bits.drop_last());
    } else {
        assert(after.drop_last() =~= bits.drop_last().update(bit, true));
        lemma_count_disabled_update(bits.drop_last(), bit);
    }
}

/// The index of the first bit that is enabled, or the number of bits where
/// none is.
pub open spec fn first_enabled(bits: Seq<bool>) -> int
    decreases bits.len(),
{
    if bits.len() == 0 {
        0
    } else if bits[0] {
        0
    } else {
        1 + first_enabled(bits.drop_first())
    }
}

/// The first enabled bit is enabled and no bit before it is; where no bit is
/// enabled, the number of bits stands in its place.
pub proof fn lemma_first_enabled(bits: Seq<bool>)
    ensures
        0 <= first_enabled(bits) <= bits.len(),
        first_enabled(bits) < bits.len() ==> bits[first_enabled(bits)],
        forall|i: int| 0 <= i < first_enabled(bits) ==> !#[trigger] bits[i],
    decreases bits.len(),
{
    if bits.len() > 0 && !bits[0] {
        lemma_first_enabled(bits.drop_first());
        assert forall|i: int| 0 <= i < first_enabled(bits) implies !#[trigger] bits[i] by {
            if i > 0 {
                assert(bits[i] == bits.drop_first()[i - 1]);
            }
        }
    }
}

/// How far a build has come: which states were scanned, and which wait to be.
pub struct Progress {
    /// The automaton that the index is built for.
    pub automaton: Automaton,
    /// The vocabulary that the index is built for.
    pub vocabulary: Vocabulary,
    /// For each state, whether it was scanned.
    pub seen: Seq<bool>,
    /// For each state, whether it waits to be scanned.
    pub frontier: Seq<bool>,
}

impl Progress {
    /// What holds between two steps of a build: no scanned state waits, every
    /// state that was scanned or waits is reachable, the initial state is
    /// among them, and so is every state that a token leads to from a
    /// scanned one.
    pub open spec fn wf(self) -> bool {
        &&& self.automaton.wf()
        &&& self.seen.len() == self.automaton.states
        &&& self.frontier.len() == self.automaton.states
        &&& forall|s: int| 0 <= s < self.seen.len() ==> !(self.seen[s] && self.frontier[s])
        &&& forall|s: int|
            0 <= s < self.seen.len() && (self.seen[s] || self.frontier[s]) ==> reachable(
                self.automaton,
                self.vocabulary,
                s as u32,
            )
        &&& self.seen[self.automaton.initial as int] || self.frontier[self.automaton.initial as int]
        &&& forall|p: int, k: int|
            0 <= p < self.seen.len() && self.seen[p] && 0 <= k < state_pairs(
                self.automaton,
                self.vocabulary,
                p as u32,
            ).len() ==> self.known((#[trigger] state_pairs(self.automaton, self.vocabulary, p as u32)[k]).1)
    }

    /// `state` was scanned or waits to be.
    pub open spec fn known(self, state: u32) -> bool {
        state < self.seen.len() && (self.seen[state as int] || self.frontier[state as int])
    }

    /// No state waits to be scanned.
    pub open spec fn done(self) -> bool {
        forall|s: int| 0 <= s < self.frontier.len() ==> !self.frontier[s]
    }

    /// The state that is scanned next: the lowest that waits.
    pub open spec fn next(self) -> u32 {
        first_enabled(self.frontier) as u32
    }

    /// The number of states that were not scanned.
    pub open spec fn unseen(self) -> nat {
        count_disabled(self.seen)
    }

    /// The progress once `state` was scanned: it no longer waits, and every
    /// state that one of its tokens leads to waits unless it was scanned.
    pub open spec fn after(self, state: u32) -> Progress {
        Progress {
            seen: self.seen.update(state as int, true),
            frontier: Seq::new(
                self.frontier.len(),
                |q: int|
                    q != state && !self.seen[q] && (self.frontier[q] || successor(
                        self.automaton,
                        self.vocabulary,
                        state,
                        q as u32,
                    )),
            ),
            ..self
        }
    }

    /// Scanning a waiting state keeps a build in order and leaves one state
    /// fewer to scan.
    pub proof fn lemma_after(self, state: u32)
        requires
            self.wf(),
            state < self.frontier.len(),
            self.frontier[state as int],
        ensures
            self.after(state).wf(),
            self.after(state).unseen() + 1 == self.unseen(),
    {
        let next = self.after(state);
        lemma_count_disabled_update(self.seen, state as int);
        assert forall|s: int|
            0 <= s < next.seen.len() && (next.seen[s] || next.frontier[s]) implies reachable(
            self.automaton,
            self.vocabulary,
            s as u32,
        ) by {
            if !(self.seen[s] || self.frontier[s]) {
                lemma_reachable_step(self.automaton, self.vocabulary, state, s as u32);
            }
        }
        assert forall|p: int, k: int|
            0 <= p < next.seen.len() && next.seen[p] && 0 <= k < state_pairs(
                self.automaton,
                self.vocabulary,
                p as u32,
            ).len() implies next.known(
            (#[trigger] state_pairs(self.automaton, self.vocabulary, p as u32)[k]).1,
        ) by {
            let to = state_pairs(self.automaton, self.vocabulary, p as u32)[k].1;
            lemma_pairs_in_range(self.automaton, self.vocabulary, p as u32, k);
            if p != state {
                assert(self.known(to));
            } else {
                assert(successor(self.automaton, self.vocabulary, state, to));
            }
        }
    }

    /// When no state waits, the scanned states are the reachable ones.
    pub proof fn lemma_done(self, state: u32)
        requires
            self.wf(),
            self.done(),
        ensures
            reachable(self.automaton, self.vocabulary, state) <==> state < self.seen.len()
                && self.seen[state as int],
    {
        if reachable(self.automaton, self.vocabulary, state) {
            let path = choose|path: Seq<u32>| #[trigger]
                is_path(self.automaton, self.vocabulary, path) && path.last() == state;
            self.lemma_path_seen(path, path.len() - 1);
        }
    }

    /// When no state waits, every state on a path was scanned.
    proof fn lemma_path_seen(self, path: Seq<u32>, i: int)
        requires
            self.wf(),
            self.done(),
            is_path(self.automaton, self.vocabulary, path),
            0 <= i < path.len(),
        ensures
            path[i] < self.seen.len(),
            self.seen[path[i] as int],
        decreases i,
    {
        if i > 0 {
            self.lemma_path_seen(path, i - 1);
            assert(successor(self.automaton, self.vocabulary, path[i - 1], path[i]));
            let k = choose|k: int|
                0 <= k < state_pairs(self.automaton, self.vocabulary, path[i - 1]).len()
                    && (#[trigger] state_pairs(self.automaton, self.vocabulary, path[i - 1])[k]).1
                    == path[i];
            assert(self.known(state_pairs(self.automaton, self.vocabulary, path[i - 1])[k].1));
        }
    }
}

/// The worker's state while it builds an index: the symbols of the
/// vocabulary, the states scanned so far and the states that wait.
pub struct IndexBuilder {
    vocabulary_transition_keys: Vec<Vec<u32>>,
    seen: FixedBitSet,
    next_states: FixedBitSet,
    automaton: Ghost<Automaton>,
    vocabulary: Ghost<Vocabulary>,
}

impl View for IndexBuilder {
    type V = Progress;

    closed spec fn view(&self) -> Progress {
        Progress {
            automaton: self.automaton@,
            vocabulary: self.vocabulary@,
            seen: bit_seq(self.seen),
            frontier: bit_seq(self.next_states),
        }
    }
}

impl IndexBuilder {
    /// The build is in order, and the builder holds the symbols of its
    /// vocabulary.
    pub closed spec fn wf(&self) -> bool {
        &&& self@.wf()
        &&& self.vocabulary_transition_keys.deep_view() == token_keys(
            self.automaton@,
            self.vocabulary@,
        )
    }

    /// What follows from `wf`.
    pub proof fn lemma_wf(&self)
        requires
            self.wf(),
        ensures
            self@.wf(),
    {
    }

    /// A build that has scanned nothing yet: only the initial state waits.
    pub fn new(fsm_info: &FSMInfo, vocabulary: &TokenVocabulary) -> (builder: IndexBuilder)
        ensures
            builder.wf(),
            builder@.automaton == fsm_info@,
            builder@.vocabulary == vocabulary@,
            builder@.seen == Seq::new(fsm_info@.states, |s: int| false),
            builder@.frontier == Seq::new(fsm_info@.states, |s: int| s == fsm_info@.initial),
    {
        let vocabulary_transition_keys = create_vocab_transition_vector(fsm_info, vocabulary);
        let states = fsm_info.states();
        let initial = fsm_info.initial();
        let seen = FixedBitSet::with_capacity(states);
        let mut next_states = FixedBitSet::with_capacity(states);
        next_states.insert(initial as usize);
        let builder = IndexBuilder {
            vocabulary_transition_keys,
            seen,
            next_states,
            automaton: Ghost(fsm_info@),
            vocabulary: Ghost(vocabulary@),
        };
        proof {
            assert(builder@.frontier =~= Seq::new(
                fsm_info@.states,
                |s: int| s == fsm_info@.initial,
            ));
            lemma_initial_reachable(fsm_info@, vocabulary@);
        }
        builder
    }

    /// Whether no state waits to be scanned.
    pub fn is_done(&self) -> (done: bool)
        requires
            self.wf(),
        ensures
            done == self@.done(),
    {
        lowest_enabled(&self.next_states).is_none()
    }

    /// One step of the build. Where no state waits, nothing happens. Else the
    /// lowest waiting state is scanned and returned with its pairs; it is
    /// marked as scanned, and the states that its tokens lead to wait from now
    /// on unless they were scanned.
    pub fn step(&mut self, fsm_info: &FSMInfo, vocabulary: &TokenVocabulary) -> (scanned: Option<
        (u32, Vec<(u32, u32)>),
    >)
        requires
            old(self).wf(),
            fsm_info@ == old(self)@.automaton,
            vocabulary@ == old(self)@.vocabulary,
        ensures
            final(self).wf(),
            match scanned {
                None => old(self)@.done() && final(self)@ == old(self)@,
                Some((state, pairs)) => {
                    &&& !old(self)@.done()
                    &&& state == old(self)@.next()
                    &&& state < old(self)@.frontier.len()
                    &&& old(self)@.frontier[state as int]
                    &&& pairs@ == state_pairs(old(self)@.automaton, old(self)@.vocabulary, state)
                    &&& final(self)@ == old(self)@.after(state)
                    &&& final(self)@.unseen() + 1 == old(self)@.unseen()
                },
            },
    {
        let ghost before = self@;
        let start = match lowest_enabled(&self.next_states) {
            None => {
                return None;
            },
            Some(start) => start,
        };
        let state = start as u32;
        proof {
            lemma_first_enabled(before.frontier);
        }
        self.next_states.set(start, false);
        let pairs = state_scan_tokens(
            fsm_info,
            vocabulary.values(),
            &self.vocabulary_transition_keys,
            state,
        );
        self.seen.insert(start);
        let ghost cleared = bit_seq(self.next_states);
        let mut k: usize = 0;
        while k < pairs.len()
            invariant
                k <= pairs@.len(),
                before.wf(),
                self.automaton@ == before.automaton,
                self.vocabulary@ == before.vocabulary,
                self.vocabulary_transition_keys.deep_view() == token_keys(
                    before.automaton,
                    before.vocabulary,
                ),
                pairs@ == state_pairs(before.automaton, before.vocabulary, state),
                bit_seq(self.seen) == before.seen.update(state as int, true),
                cleared == before.frontier.update(state as int, false),
                state < before.frontier.len(),
                state == before.next(),
                before.frontier[state as int],
                bit_seq(self.next_states).len() == before.frontier.len(),
                forall|q: int|
                    0 <= q < before.frontier.len() ==> #[trigger] bit_seq(self.next_states)[q] == (
                    cleared[q] || (q != state && !before.seen[q] && exists|j: int|
                        0 <= j < k && (#[trigger] pairs@[j]).1 == q)),
            decreases pairs@.len() - k,
        {
            let end_state = pairs[k].1;
            proof {
                lemma_pairs_in_range(before.automaton, before.vocabulary, state, k as int);
            }
            let ghost frontier = bit_seq(self.next_states);
            if !self.seen.contains(end_state as usize) {
                self.next_states.insert(end_state as usize);
            }
            proof {
                assert forall|q: int| 0 <= q < before.frontier.len() implies #[trigger] bit_seq(
                    self.next_states,
                )[q] == (cleared[q] || (q != state && !before.seen[q] && exists|j: int|
                    0 <= j < k + 1 && (#[trigger] pairs@[j]).1 == q)) by {
                    if q == end_state {
                        assert(pairs@[k as int].1 == q);
                    } else {
                        assert(bit_seq(self.next_states)[q] == frontier[q]);
                        if exists|j: int| 0 <= j < k + 1 && (#[trigger] pairs@[j]).1 == q {
                            let j = choose|j: int| 0 <= j < k + 1 && (#[trigger] pairs@[j]).1 == q;
                            assert(j < k);
                        }
                    }
                }
            }
            k = k + 1;
        }
        proof {
            assert(self@.frontier =~= before.after(state).frontier);
            before.lemma_after(state);
        }
        Some((state, pairs))
    }
}

/// Puts every pair into `map` in turn, the token id as the key.
pub fn insert_all(map: &mut FxHashMap<u32, u32>, pairs: &Vec<(u32, u32)>)
    ensures
        final(map)@ == insert_pairs(old(map)@, pairs@),
{
    let mut k: usize = 0;
    assert(pairs@.take(0) =~= Seq::empty());
    while k < pairs.len()
        invariant
            k <= pairs@.len(),
            map@ == insert_pairs(old(map)@, pairs@.take(k as int)),
        decreases pairs@.len() - k,
    {
        map_insert(map, pairs[k].0, pairs[k].1);
        assert(pairs@.take(k + 1).drop_last() =~= pairs@.take(k as int));
        k = k + 1;
    }
    assert(pairs@.take(k as int) =~= pairs@);
}

/// The maps of slot `state` after a build that found the slot holding
/// `before`: the pairs of a reachable state are put into its slot, and the
/// slot of any other state is left as it was.
pub open spec fn built_map(
    automaton: Automaton,
    vocabulary: Vocabulary,
    before: Map<u32, u32>,
    state: int,
) -> Map<u32, u32> {
    if 0 <= state < automaton.states && reachable(automaton, vocabulary, state as u32) {
        insert_pairs(before, state_pairs(automaton, vocabulary, state as u32))
    } else {
        before
    }
}

/// The flag of slot `state` after a build that found the flag holding
/// `before`: the flag of a reachable state is set.
pub open spec fn built_flag(
    automaton: Automaton,
    vocabulary: Vocabulary,
    before: bool,
    state: int,
) -> bool {
    before || (0 <= state < automaton.states && reachable(automaton, vocabulary, state as u32))
}

/// Builds the index: scans every state that tokens lead to from the initial
/// state, each once, puts its pairs into its slot of `return_to` and then
/// sets its flag in `state_notifiers`. The slots and flags of other states are
/// left as they are.
pub fn create_fsm_index_end_to_end(
    fsm_info: &FSMInfo,
    vocabulary: &TokenVocabulary,
    return_to: &mut Vec<FxHashMap<u32, u32>>,
    state_notifiers: &mut Vec<bool>,
)
    requires
        fsm_info@.states <= old(return_to)@.len(),
        fsm_info@.states <= old(state_notifiers)@.len(),
    ensures
        final(return_to)@.len() == old(return_to)@.len(),
        final(state_notifiers)@.len() == old(state_notifiers)@.len(),
        forall|s: int|
            0 <= s < final(return_to)@.len() ==> (#[trigger] final(return_to)@[s])@ == built_map(
                fsm_info@,
                vocabulary@,
                old(return_to)@[s]@,
                s,
            ),
        forall|s: int|
            0 <= s < final(state_notifiers)@.len() ==> #[trigger] final(state_notifiers)@[s]
                == built_flag(fsm_info@, vocabulary@, old(state_notifiers)@[s], s),
{
    let mut builder = IndexBuilder::new(fsm_info, vocabulary);
    let ghost automaton = fsm_info@;
    let ghost words = vocabulary@;
    while !builder.is_done()
        invariant
            builder.wf(),
            builder@.automaton == automaton,
            builder@.vocabulary == words,
            automaton == fsm_info@,
            words == vocabulary@,
            automaton.states <= return_to@.len(),
            automaton.states <= state_notifiers@.len(),
            return_to@.len() == old(return_to)@.len(),
            state_notifiers@.len() == old(state_notifiers)@.len(),
            forall|s: int|
                0 <= s < return_to@.len() ==> (#[trigger] return_to@[s])@ == (if s
                    < automaton.states && builder@.seen[s] {
                    insert_pairs(old(return_to)@[s]@, state_pairs(automaton, words, s as u32))
                } else {
                    old(return_to)@[s]@
                }),
            forall|s: int|
                0 <= s < state_notifiers@.len() ==> #[trigger] state_notifiers@[s] == (
                old(state_notifiers)@[s] || (s < automaton.states && builder@.seen[s])),
        decreases builder@.unseen(),
    {
        proof {
            builder.lemma_wf();
        }
        match builder.step(fsm_info, vocabulary) {
            None => {},
            Some((state, pairs)) => {
                insert_all(&mut return_to[state as usize], &pairs);
                state_notifiers[state as usize] = true;
            },
        }
    }
    proof {
        builder.lemma_wf();
        assert forall|s: int| 0 <= s < return_to@.len() implies (#[trigger] return_to@[s])@
            == built_map(automaton, words, old(return_to)@[s]@, s) by {
            if s <= u32::MAX {
                builder@.lemma_done(s as u32);
            }
        }
        assert forall|s: int| 0 <= s < state_notifiers@.len() implies #[trigger] state_notifiers@[s]
            == built_flag(automaton, words, old(state_notifiers)@[s], s) by {
            if s <= u32::MAX {
                builder@.lemma_done(s as u32);
            }
        }
    }
}

} // verus!
