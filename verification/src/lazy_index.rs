//! The lazy index: the per-state transition maps of an automaton under a
//! vocabulary, built state by state on demand, and the queries that a
//! generator puts to them.

use crate::bitset::bit_seq;
use crate::caching::caching::{
    get_cached_fsm, insert_fsm_to_cache, CacheView, CachedFSM, CachedIndex, ModuleState,
};
use crate::caching::hashing::{fsm_cache_key, get_fsm_cache_key};
use crate::error::FsmError;
use crate::maps::{map_get, map_insert, map_keys, new_map};
use crate::tokenizer_index::{insert_all, reachable, state_map, IndexBuilder, Progress};
use crate::types::{contains_state, Automaton, FSMInfo, Generate, Instruction, Write};
use crate::vocab::{TokenVocabulary, Vocabulary};
use fixedbitset::FixedBitSet;
use rustc_hash::FxHashMap;
use vstd::prelude::*;

verus! {

/// The largest number of slots that an index has: a state is handed to a
/// generator as a signed id.
pub const MAX_STATES: usize = 0x8000_0000;

/// Whether `state` ends a generation: it is the terminal id -1 or an
/// accepting state.
pub open spec fn is_terminal(finals: Seq<u32>, state: i32) -> bool {
    state == -1 || finals.contains(state as u32)
}

/// The slot that a query about `state` reads: 0 stands for the first state.
pub open spec fn slot_of(first_state: u32, state: i32) -> u32 {
    if state == 0 {
        first_state
    } else {
        state as u32
    }
}

/// The state that `token_id` leads to by `map`, or -1 where the map is
/// absent, has no such token, or leads to a state that ends the generation.
pub open spec fn next_in(finals: Seq<u32>, map: Option<Map<u32, u32>>, token_id: u32) -> i32 {
    match map {
        Some(m) => if m.contains_key(token_id) && !is_terminal(finals, m[token_id] as i32) {
            m[token_id] as i32
        } else {
            -1i32
        },
        None => -1i32,
    }
}

/// Whether some token may follow by `map`.
pub open spec fn has_tokens(map: Map<u32, u32>) -> bool {
    exists|k: u32| map.contains_key(k)
}

/// `tokens` lists the keys of `map`, each once, as signed ids.
pub open spec fn is_token_list(map: Map<u32, u32>, tokens: Seq<i32>) -> bool {
    exists|keys: Seq<u32>|
        {
            &&& #[trigger] keys.no_duplicates()
            &&& forall|k: u32| keys.contains(k) <==> map.contains_key(k)
            &&& tokens == keys.map_values(|k: u32| k as i32)
        }
}

/// The tokens that may follow by the map of a slot: the keys of the map, and
/// only the end-of-sequence token where there is no map.
pub open spec fn is_allowed_list(eos: u32, map: Option<Map<u32, u32>>, tokens: Seq<i32>) -> bool {
    match map {
        Some(m) => is_token_list(m, tokens),
        None => tokens == seq![eos as i32],
    }
}

/// The instruction that `map` gives: to sample from the map's keys where it
/// has any, and else to write the end-of-sequence token.
pub open spec fn is_instruction_for(
    eos: u32,
    map: Option<Map<u32, u32>>,
    instruction: Instruction,
) -> bool {
    match instruction {
        Instruction::Generate(generate) => {
            &&& generate.tokens matches Some(tokens)
            &&& map matches Some(m)
            &&& has_tokens(m)
            &&& is_token_list(m, tokens@)
        },
        Instruction::Write(write) => {
            &&& write.tokens@ == seq![eos as i32]
            &&& !(map matches Some(m) && has_tokens(m))
        },
    }
}

/// Whether `state` ends a generation.
pub fn is_terminal_state(finals: &Vec<u32>, state: i32) -> (r: bool)
    ensures
        r == is_terminal(finals@, state),
{
    state == -1 || contains_state(finals, state as u32)
}

/// The slot that a query about `state` reads.
pub fn slot_for(first_state: u32, state: i32) -> (r: u32)
    ensures
        r == slot_of(first_state, state),
{
    if state == 0 {
        first_state
    } else {
        state as u32
    }
}

/// The slot that decides which state follows `state` on `token_id`; none
/// where the generation ends whatever the slots hold: `state` is -1 or
/// accepting, or `token_id` is the end-of-sequence token.
pub fn next_state_slot(
    first_state: u32,
    eos_token_id: u32,
    finals: &Vec<u32>,
    state: i32,
    token_id: u32,
) -> (slot: Option<u32>)
    ensures
        slot == (if state == -1 || token_id == eos_token_id || finals@.contains(state as u32) {
            None
        } else {
            Some(slot_of(first_state, state))
        }),
{
    if state == -1 {
        return None;
    }
    if token_id == eos_token_id || contains_state(finals, state as u32) {
        return None;
    }
    Some(slot_for(first_state, state))
}

/// The slot that decides the instruction in `state`; none where `state` ends
/// the generation.
pub fn instruction_slot(first_state: u32, finals: &Vec<u32>, state: i32) -> (slot: Option<u32>)
    ensures
        slot == (if is_terminal(finals@, state) {
            None
        } else {
            Some(slot_of(first_state, state))
        }),
{
    if is_terminal_state(finals, state) {
        None
    } else {
        Some(slot_for(first_state, state))
    }
}

/// The slot that lists the tokens allowed in `state`; none for the terminal
/// id -1.
pub fn allowed_tokens_slot(first_state: u32, state: i32) -> (slot: Option<u32>)
    ensures
        slot == (if state == -1 {
            None
        } else {
            Some(slot_of(first_state, state))
        }),
{
    if state == -1 {
        None
    } else {
        Some(slot_for(first_state, state))
    }
}

/// Whether an index from the cache can be taken over: it has no more slots
/// than an index may have.
pub fn is_usable(cached_fsm: &CachedFSM) -> (usable: bool)
    ensures
        usable == (cached_fsm@.maps.len() <= MAX_STATES),
{
    cached_fsm.states_to_token_maps.len() <= MAX_STATES
}

/// The slots to hand out: those that are ready and were not handed out
/// before, in ascending order. They are marked as handed out.
pub fn select_finished(returned_states: &mut FixedBitSet, ready: &Vec<bool>) -> (slots: Vec<usize>)
    requires
        bit_seq(*old(returned_states)).len() == ready@.len(),
    ensures
        bit_seq(*final(returned_states)) == Seq::new(
            ready@.len(),
            |s: int| bit_seq(*old(returned_states))[s] || ready@[s],
        ),
        forall|slot: usize|
            slots@.contains(slot) <==> slot < ready@.len() && ready@[slot as int] && !bit_seq(
                *old(returned_states),
            )[slot as int],
        forall|i: int, j: int| 0 <= i < j < slots@.len() ==> slots@[i] < slots@[j],
{
    let mut slots: Vec<usize> = Vec::new();
    let total = ready.len();
    let ghost before = bit_seq(*returned_states);
    let mut index: usize = 0;
    while index < total
        invariant
            index <= total,
            total == ready@.len(),
            before == bit_seq(*old(returned_states)),
            bit_seq(*returned_states).len() == total,
            forall|s: int|
                0 <= s < total ==> #[trigger] bit_seq(*returned_states)[s] == (before[s] || (s
                    < index && ready@[s])),
            forall|i: int|
                0 <= i < slots@.len() ==> (#[trigger] slots@[i]) < index && ready@[slots@[i] as int]
                    && !before[slots@[i] as int],
            forall|slot: usize|
                slot < index && ready@[slot as int] && !before[slot as int] ==> slots@.contains(
                    slot,
                ),
            forall|i: int, j: int| 0 <= i < j < slots@.len() ==> slots@[i] < slots@[j],
        decreases total - index,
    {
        if !returned_states.contains(index) && ready[index] {
            let ghost listed = slots@;
            slots.push(index);
            returned_states.set(index, true);
            proof {
                assert forall|slot: usize|
                    slot < index + 1 && ready@[slot as int] && !before[slot as int] implies slots@.contains(
                    slot,
                ) by {
                    if slot < index {
                        let at = choose|at: int| 0 <= at < listed.len() && listed[at] == slot;
                        assert(slots@[at] == slot);
                    } else {
                        assert(slots@[listed.len() as int] == index);
                    }
                }
            }
        }
        index = index + 1;
    }
    assert(bit_seq(*returned_states) =~= Seq::new(ready@.len(), |s: int| before[s] || ready@[s]));
    slots
}

/// The state that `token_id` leads to by the map of a slot.
pub fn next_state_in(finals: &Vec<u32>, map: Option<&FxHashMap<u32, u32>>, token_id: u32) -> (r:
    i32)
    ensures
        r == next_in(
            finals@,
            match map {
                Some(m) => Some(m@),
                None => None,
            },
            token_id,
        ),
{
    match map {
        Some(m) => match map_get(m, token_id) {
            Some(next_state) => {
                let next = *next_state as i32;
                if is_terminal_state(finals, next) {
                    -1
                } else {
                    next
                }
            },
            None => -1,
        },
        None => -1,
    }
}

/// The tokens that may follow by the map of a slot.
pub fn allowed_tokens_in(eos_token_id: u32, map: Option<&FxHashMap<u32, u32>>) -> (tokens: Vec<i32>)
    ensures
        is_allowed_list(
            eos_token_id,
            match map {
                Some(m) => Some(m@),
                None => None,
            },
            tokens@,
        ),
{
    let mut allowed: Vec<i32> = Vec::new();
    match map {
        Some(m) => {
            let keys = map_keys(m);
            let mut i: usize = 0;
            while i < keys.len()
                invariant
                    i <= keys@.len(),
                    allowed@ == keys@.take(i as int).map_values(|k: u32| k as i32),
                decreases keys@.len() - i,
            {
                allowed.push(keys[i] as i32);
                assert(keys@.take(i + 1).map_values(|k: u32| k as i32) =~= keys@.take(
                    i as int,
                ).map_values(|k: u32| k as i32).push(keys@[i as int] as i32));
                i = i + 1;
            }
            assert(keys@.take(i as int) =~= keys@);
        },
        None => {
            allowed.push(eos_token_id as i32);
            assert(allowed@ =~= seq![eos_token_id as i32]);
        },
    }
    allowed
}

/// The instruction that the map of a slot gives.
pub fn instruction_in(eos_token_id: u32, map: Option<&FxHashMap<u32, u32>>) -> (instruction:
    Instruction)
    ensures
        is_instruction_for(
            eos_token_id,
            match map {
                Some(m) => Some(m@),
                None => None,
            },
            instruction,
        ),
{
    match map {
        Some(m) => {
            let tokens = allowed_tokens_in(eos_token_id, map);
            proof {
                let keys = choose|keys: Seq<u32>|
                    {
                        &&& #[trigger] keys.no_duplicates()
                        &&& forall|k: u32| keys.contains(k) <==> m@.contains_key(k)
                        &&& tokens@ == keys.map_values(|k: u32| k as i32)
                    };
                assert(keys.len() == tokens@.len());
                if keys.len() > 0 {
                    assert(keys.contains(keys[0]));
                } else {
                    assert forall|k: u32| !m@.contains_key(k) by {
                        assert(!keys.contains(k));
                    }
                }
            }
            if tokens.len() > 0 {
                return Instruction::Generate(Generate::new(Some(tokens)));
            }
        },
        None => {},
    }
    Instruction::Write(Write::new(allowed_tokens_in(eos_token_id, None)))
}

/// What a `LazyFSMIndex` stands for.
pub struct LazyView {
    /// The transition map in each slot; a slot is empty until its state was
    /// scanned.
    pub maps: Seq<Map<u32, u32>>,
    /// For each slot, whether its map is complete and may be read.
    pub ready: Seq<bool>,
    /// The state in which a generation starts.
    pub first_state: u32,
    /// The token id that ends a generation.
    pub eos: u32,
    /// The accepting states.
    pub finals: Seq<u32>,
    /// Whether the build has ended and its result was handed to the cache.
    pub finished: bool,
    /// For each slot, whether it was handed out by
    /// `collect_finished_states`.
    pub returned: Seq<bool>,
    /// The fingerprint of the inputs.
    pub cache_key: u64,
    /// The build that fills the slots; none where the index came from the
    /// cache.
    pub worker: Option<Progress>,
}

impl LazyView {
    /// What holds of every index: the flags belong to the slots, a slot that
    /// was handed out is ready, and the slots hold what the build has put
    /// into them so far.
    pub open spec fn wf(self) -> bool {
        &&& self.ready.len() == self.maps.len()
        &&& self.returned.len() == self.maps.len()
        &&& self.maps.len() <= MAX_STATES
        &&& forall|s: int| 0 <= s < self.maps.len() && self.returned[s] ==> self.ready[s]
        &&& match self.worker {
            Some(progress) => {
                &&& progress.wf()
                &&& progress.automaton.states == self.maps.len()
                &&& self.first_state == progress.automaton.initial
                &&& self.finals == progress.automaton.finals
                &&& self.cache_key == fsm_cache_key(
                    progress.automaton.pattern,
                    progress.vocabulary,
                )
                &&& self.ready == progress.seen
                &&& forall|s: int|
                    0 <= s < self.maps.len() ==> #[trigger] self.maps[s] == (if progress.seen[s] {
                        state_map(progress.automaton, progress.vocabulary, s as u32)
                    } else {
                        Map::empty()
                    })
                &&& self.finished ==> progress.done()
            },
            None => self.finished && forall|s: int| 0 <= s < self.maps.len() ==> self.ready[s],
        }
    }

    /// The map that a reader of slot `state` is handed once the slot is
    /// settled: the state's transition map where the build reaches the state,
    /// and none where it does not or where there is no such slot.
    pub open spec fn settled(self, state: int) -> Option<Map<u32, u32>> {
        if 0 <= state < self.maps.len() {
            match self.worker {
                Some(progress) => if reachable(
                    progress.automaton,
                    progress.vocabulary,
                    state as u32,
                ) {
                    Some(state_map(progress.automaton, progress.vocabulary, state as u32))
                } else {
                    None
                },
                None => Some(self.maps[state]),
            }
        } else {
            None
        }
    }

    /// Whether `token_id` ends the generation in `state` whatever the maps
    /// hold: `state` ends the generation, or `token_id` is the end-of-sequence
    /// token.
    pub open spec fn ends_at_once(self, state: i32, token_id: u32) -> bool {
        state == -1 || token_id == self.eos || self.finals.contains(state as u32)
    }

    /// The state that follows `state` on `token_id`: -1 where `state` ends the
    /// generation or `token_id` is the end-of-sequence token, and else what
    /// the settled map of the state's slot gives.
    pub open spec fn next_state(self, state: i32, token_id: u32) -> i32 {
        if self.ends_at_once(state, token_id) {
            -1i32
        } else {
            next_in(self.finals, self.settled(slot_of(self.first_state, state) as int), token_id)
        }
    }

    /// The map that decides the instruction in `state`: none where `state`
    /// ends the generation, and else the settled map of the state's slot.
    pub open spec fn deciding_map(self, state: i32) -> Option<Map<u32, u32>> {
        if is_terminal(self.finals, state) {
            None
        } else {
            self.settled(slot_of(self.first_state, state) as int)
        }
    }

    /// The map that lists the tokens allowed in `state`: none for the terminal
    /// id -1, and else the settled map of the state's slot.
    pub open spec fn listing_map(self, state: i32) -> Option<Map<u32, u32>> {
        if state == -1 {
            None
        } else {
            self.settled(slot_of(self.first_state, state) as int)
        }
    }

    /// The index once its build has run to the end: every reachable state has
    /// its map and is ready, and no other is.
    pub open spec fn built(self) -> LazyView {
        match self.worker {
            Some(progress) => LazyView {
                maps: Seq::new(
                    self.maps.len(),
                    |s: int|
                        if reachable(progress.automaton, progress.vocabulary, s as u32) {
                            state_map(progress.automaton, progress.vocabulary, s as u32)
                        } else {
                            Map::empty()
                        },
                ),
                ready: Seq::new(
                    self.maps.len(),
                    |s: int| reachable(progress.automaton, progress.vocabulary, s as u32),
                ),
                worker: Some(
                    Progress {
                        seen: Seq::new(
                            self.maps.len(),
                            |s: int| reachable(progress.automaton, progress.vocabulary, s as u32),
                        ),
                        frontier: Seq::new(self.maps.len(), |s: int| false),
                        ..progress
                    },
                ),
                ..self
            },
            None => self,
        }
    }

    /// The index with the bookkeeping of `other`: what was handed out, and
    /// whether the build was recorded as finished.
    pub open spec fn collected_as(self, other: LazyView) -> LazyView {
        LazyView { returned: other.returned, finished: other.finished, ..self }
    }

    /// The index once its build has ended and was recorded as finished.
    pub open spec fn completed(self) -> LazyView {
        LazyView { finished: true, ..self.built() }
    }

    /// What the cache keeps of the index.
    pub open spec fn snapshot(self) -> CachedIndex {
        CachedIndex {
            maps: self.maps,
            first_state: self.first_state,
            finals: self.finals,
            hash: self.cache_key,
        }
    }

    /// The index is a later state of `before`: a slot that was ready is
    /// still ready and holds the same map, a slot that was handed out stays
    /// handed out, and the build is still the build of the same inputs.
    pub open spec fn follows(self, before: LazyView) -> bool {
        &&& self.maps.len() == before.maps.len()
        &&& self.first_state == before.first_state
        &&& self.eos == before.eos
        &&& self.finals == before.finals
        &&& self.cache_key == before.cache_key
        &&& before.finished ==> self.finished
        &&& forall|s: int|
            0 <= s < before.maps.len() && before.ready[s] ==> self.ready[s] && self.maps[s]
                == before.maps[s]
        &&& forall|s: int| 0 <= s < before.maps.len() && before.returned[s] ==> self.returned[s]
        &&& match before.worker {
            Some(progress) => self.worker matches Some(later) && later.automaton
                == progress.automaton && later.vocabulary == progress.vocabulary,
            None => self.worker is None,
        }
    }

    /// The index once its worker has scanned `state`: the slot holds the
    /// state's map and is ready.
    pub open spec fn stepped(self, state: u32) -> LazyView {
        match self.worker {
            Some(progress) => LazyView {
                maps: self.maps.update(
                    state as int,
                    state_map(progress.automaton, progress.vocabulary, state),
                ),
                ready: self.ready.update(state as int, true),
                worker: Some(progress.after(state)),
                ..self
            },
            None => self,
        }
    }

    /// The index once its worker has taken one step: it has scanned the
    /// lowest state that waited, if one did.
    pub open spec fn step(self) -> LazyView {
        if self.working() {
            self.stepped(self.worker->0.next())
        } else {
            self
        }
    }

    /// The index once its worker has gone on until slot `state` is settled:
    /// step by step until the slot is ready or no state waits. Nothing happens
    /// where there is no such slot.
    pub open spec fn run_until(self, state: int) -> LazyView
        decreases self.unseen(),
    {
        if 0 <= state < self.maps.len() && !self.ready[state] && self.working()
            && self.step().unseen() < self.unseen() {
            self.step().run_until(state)
        } else {
            self
        }
    }

    /// The index once the slot that decides the answer about `state` is
    /// settled.
    pub open spec fn settled_for(self, state: i32) -> LazyView {
        self.run_until(slot_of(self.first_state, state) as int)
    }

    /// Whether the worker has a state left to scan.
    pub open spec fn working(self) -> bool {
        self.worker matches Some(progress) && !progress.done()
    }

    /// The number of states that the worker has not scanned.
    pub open spec fn unseen(self) -> nat {
        match self.worker {
            Some(progress) => progress.unseen(),
            None => 0,
        }
    }

    /// Whether `collect_finished_states` hands slot `state` out: it is ready
    /// and was not handed out before.
    pub open spec fn surfaces(self, state: int) -> bool {
        0 <= state < self.maps.len() && self.ready[state] && !self.returned[state]
    }

    /// The index once `collect_finished_states` has handed out what was
    /// ready.
    pub open spec fn collected(self) -> LazyView {
        LazyView {
            returned: Seq::new(self.maps.len(), |s: int| self.returned[s] || self.ready[s]),
            ..self
        }
    }

    /// The index that `LazyFSMIndex::new` makes. Where the cache finds an
    /// index under the fingerprint of the inputs, the slots hold its maps and
    /// are ready. Else the slots are empty, one for each state, and a build
    /// is set up in which only the initial state waits.
    pub open spec fn fresh(
        cache: CacheView,
        automaton: Automaton,
        vocabulary: Vocabulary,
        eos: u32,
    ) -> LazyView {
        let key = fsm_cache_key(automaton.pattern, vocabulary);
        if cache.find(key) is Some && cache.find(key)->0.maps.len() <= MAX_STATES {
            let cached = cache.find(key)->0;
            LazyView {
                maps: cached.maps,
                ready: Seq::new(cached.maps.len(), |s: int| true),
                first_state: cached.first_state,
                eos,
                finals: cached.finals,
                finished: true,
                returned: Seq::new(cached.maps.len(), |s: int| false),
                cache_key: key,
                worker: None,
            }
        } else {
            LazyView {
                maps: Seq::new(automaton.states, |s: int| Map::empty()),
                ready: Seq::new(automaton.states, |s: int| false),
                first_state: automaton.initial,
                eos,
                finals: automaton.finals,
                finished: false,
                returned: Seq::new(automaton.states, |s: int| false),
                cache_key: key,
                worker: Some(
                    Progress {
                        automaton,
                        vocabulary,
                        seen: Seq::new(automaton.states, |s: int| false),
                        frontier: Seq::new(automaton.states, |s: int| s == automaton.initial),
                    },
                ),
            }
        }
    }
}

/// A later state of an index settles every slot as the earlier one does.
pub proof fn lemma_follows_settled(before: LazyView, later: LazyView, state: int)
    requires
        before.wf(),
        later.wf(),
        later.follows(before),
    ensures
        later.settled(state) == before.settled(state),
        later.built() == before.built().collected_as(later),
{
    assert(later.built().maps =~= before.built().maps);
    assert(later.built().ready =~= before.built().ready);
    if before.worker is Some {
        assert(later.built().worker->0.seen =~= before.built().worker->0.seen);
        assert(later.built().worker->0.frontier =~= before.built().worker->0.frontier);
    } else {
        assert(later.maps =~= before.maps);
        assert(later.ready =~= before.ready);
    }
}

/// A slot that is ready holds the map that the slot settles with.
pub proof fn lemma_ready_is_settled(index: LazyView, state: int)
    requires
        index.wf(),
        0 <= state < index.maps.len(),
        index.ready[state],
    ensures
        index.settled(state) == Some(index.maps[state]),
{
}

/// Once the worker has nothing left to scan, the slots that are not ready
/// settle with no map, and the index is its own end.
pub proof fn lemma_idle_is_built(index: LazyView)
    requires
        index.wf(),
        !index.working(),
    ensures
        index.built() == index,
        forall|state: int|
            0 <= state < index.maps.len() ==> index.ready[state] == (#[trigger] index.settled(
                state,
            ) is Some),
{
    if index.worker is Some {
        let progress = index.worker->0;
        assert forall|s: int| 0 <= s < index.maps.len() implies #[trigger] progress.seen[s]
            == reachable(progress.automaton, progress.vocabulary, s as u32) by {
            progress.lemma_done(s as u32);
        }
        assert(index.built().maps =~= index.maps);
        assert(index.built().ready =~= index.ready);
        assert(index.built().worker->0.seen =~= progress.seen);
        assert(index.built().worker->0.frontier =~= progress.frontier);
    }
}

/// The worker that fills the slots of an index: its inputs and how far it has
/// come.
pub struct Worker {
    fsm_info: FSMInfo,
    vocabulary: TokenVocabulary,
    builder: IndexBuilder,
}

/// The per-state transition maps of an automaton under a vocabulary. A slot
/// is filled when a query first needs it, or before by `advance`.
pub struct LazyFSMIndex {
    states_to_token_maps: Vec<FxHashMap<u32, u32>>,
    first_state: u32,
    eos_token_id: u32,
    finals: Vec<u32>,
    state_notifiers: Vec<bool>,
    computing_finished: bool,
    returned_states: FixedBitSet,
    cache_key: u64,
    worker: Option<Worker>,
}

impl View for LazyFSMIndex {
    type V = LazyView;

    closed spec fn view(&self) -> LazyView {
        LazyView {
            maps: Seq::new(
                self.states_to_token_maps@.len(),
                |s: int| self.states_to_token_maps@[s]@,
            ),
            ready: self.state_notifiers@,
            first_state: self.first_state,
            eos: self.eos_token_id,
            finals: self.finals@,
            finished: self.computing_finished,
            returned: bit_seq(self.returned_states),
            cache_key: self.cache_key,
            worker: match self.worker {
                Some(worker) => Some(worker.builder@),
                None => None,
            },
        }
    }
}

impl LazyFSMIndex {
    /// The index is in order, and so is its worker.
    pub closed spec fn wf(&self) -> bool {
        &&& self@.wf()
        &&& match self.worker {
            Some(worker) => worker.builder.wf() && worker.fsm_info@ == worker.builder@.automaton
                && worker.vocabulary@ == worker.builder@.vocabulary,
            None => true,
        }
    }

    /// What follows from `wf`.
    pub proof fn lemma_wf(&self)
        requires
            self.wf(),
        ensures
            self@.wf(),
    {
    }

    /// The index of `fsm_info` under `vocabulary`. An empty vocabulary is
    /// refused. Where `cache` holds an index under the fingerprint of the
    /// inputs, that index is taken over; else the slots are laid out and the
    /// build is set up.
    pub fn new(
        fsm_info: FSMInfo,
        vocabulary: &TokenVocabulary,
        eos_token_id: u32,
        cache: &mut ModuleState,
    ) -> (r: Result<LazyFSMIndex, FsmError>)
        ensures
            r is Ok <==> vocabulary@.entries.len() > 0,
            r matches Err(e) ==> e == FsmError::InputInvalid && final(cache)@ == old(cache)@,
            r matches Ok(index) ==> {
                &&& index.wf()
                &&& index@ == LazyView::fresh(old(cache)@, fsm_info@, vocabulary@, eos_token_id)
                &&& final(cache)@ == old(cache)@.after_lookup(
                    fsm_cache_key(fsm_info@.pattern, vocabulary@),
                )
            },
    {
        if vocabulary.is_empty() {
            return Err(FsmError::InputInvalid);
        }
        let cache_key = get_fsm_cache_key(fsm_info.pattern().as_str(), vocabulary);
        let cache_entry = get_cached_fsm(cache, cache_key);
        match cache_entry {
            Some(cached_fsm) => {
                if is_usable(&cached_fsm) {
                    return Ok(LazyFSMIndex::from_cached(&cached_fsm, eos_token_id, cache_key));
                }
            },
            None => {},
        }
        let states = fsm_info.states();
        let mut results: Vec<FxHashMap<u32, u32>> = Vec::new();
        let mut state_notifiers: Vec<bool> = Vec::new();
        let mut s: usize = 0;
        while s < states
            invariant
                s <= states,
                results@.len() == s,
                state_notifiers@.len() == s,
                forall|i: int| 0 <= i < s ==> (#[trigger] results@[i])@ == Map::<u32, u32>::empty(),
                forall|i: int| 0 <= i < s ==> !#[trigger] state_notifiers@[i],
            decreases states - s,
        {
            results.push(new_map());
            state_notifiers.push(false);
            s = s + 1;
        }
        let first_state = fsm_info.initial();
        let finals = fsm_info.finals().clone();
        let builder = IndexBuilder::new(&fsm_info, vocabulary);
        let worker = Worker { fsm_info, vocabulary: vocabulary.clone(), builder };
        let index = LazyFSMIndex {
            states_to_token_maps: results,
            first_state,
            eos_token_id,
            finals,
            state_notifiers,
            computing_finished: false,
            returned_states: FixedBitSet::with_capacity(states),
            cache_key,
            worker: Some(worker),
        };
        proof {
            let fresh = LazyView::fresh(old(cache)@, fsm_info@, vocabulary@, eos_token_id);
            builder.lemma_wf();
            assert(index@.maps =~= fresh.maps);
            assert(index@.ready =~= fresh.ready);
            assert(index@.returned =~= fresh.returned);
            assert(index@.worker == fresh.worker);
            assert(index@ == fresh);
        }
        Ok(index)
    }

    /// The index that holds what `cached_fsm` holds, every slot ready.
    fn from_cached(cached_fsm: &CachedFSM, eos_token_id: u32, cache_key: u64) -> (index:
        LazyFSMIndex)
        requires
            cached_fsm@.maps.len() <= MAX_STATES,
        ensures
            index.wf(),
            index@ == (LazyView {
                maps: cached_fsm@.maps,
                ready: Seq::new(cached_fsm@.maps.len(), |s: int| true),
                first_state: cached_fsm@.first_state,
                eos: eos_token_id,
                finals: cached_fsm@.finals,
                finished: true,
                returned: Seq::new(cached_fsm@.maps.len(), |s: int| false),
                cache_key,
                worker: None,
            }),
    {
        let slots = cached_fsm.states_to_token_maps.len();
        let mut states_to_token_maps: Vec<FxHashMap<u32, u32>> = Vec::new();
        let mut state_notifiers: Vec<bool> = Vec::new();
        let mut s: usize = 0;
        while s < slots
            invariant
                s <= slots,
                slots == cached_fsm.states_to_token_maps@.len(),
                states_to_token_maps@.len() == s,
                state_notifiers@.len() == s,
                forall|i: int|
                    0 <= i < s ==> (#[trigger] states_to_token_maps@[i])@
                        == cached_fsm.states_to_token_maps@[i]@,
                forall|i: int| 0 <= i < s ==> #[trigger] state_notifiers@[i],
            decreases slots - s,
        {
            states_to_token_maps.push(cached_fsm.states_to_token_maps[s].clone());
            state_notifiers.push(true);
            s = s + 1;
        }
        let index = LazyFSMIndex {
            states_to_token_maps,
            first_state: cached_fsm.first_state,
            eos_token_id,
            finals: cached_fsm.finals.clone(),
            state_notifiers,
            computing_finished: true,
            returned_states: FixedBitSet::with_capacity(slots),
            cache_key,
            worker: None,
        };
        proof {
            assert(index@.maps =~= cached_fsm@.maps);
            assert(index@.ready =~= Seq::new(cached_fsm@.maps.len(), |s: int| true));
        }
        index
    }

    /// Lets the worker scan one state, the lowest that waits, and fill its
    /// slot. Returns whether there was a state to scan.
    pub fn advance(&mut self) -> (stepped: bool)
        requires
            old(self).wf(),
        ensures
            final(self).wf(),
            final(self)@.follows(old(self)@),
            stepped == old(self)@.working(),
            final(self)@ == old(self)@.step(),
            stepped ==> final(self)@.unseen() + 1 == old(self)@.unseen(),
    {
        let scanned = match &mut self.worker {
            Some(worker) => worker.builder.step(&worker.fsm_info, &worker.vocabulary),
            None => None,
        };
        match scanned {
            Some((state, pairs)) => {
                insert_all(&mut self.states_to_token_maps[state as usize], &pairs);
                self.state_notifiers[state as usize] = true;
                proof {
                    let before = old(self)@;
                    let progress = before.worker->0;
                    old(self).worker->0.builder.lemma_wf();
                    self.worker->0.builder.lemma_wf();
                    assert(progress.frontier[state as int]);
                    assert(!progress.seen[state as int]);
                    assert(before.maps[state as int] == Map::<u32, u32>::empty());
                    assert(self@.maps[state as int] == state_map(
                        progress.automaton,
                        progress.vocabulary,
                        state,
                    ));
                    assert(self@.maps =~= before.stepped(state).maps);
                    assert(self@.ready =~= before.stepped(state).ready);
                    assert(self@.worker == before.stepped(state).worker);
                    assert(self@ == before.stepped(state));
                    assert(self@.ready =~= self@.worker->0.seen);
                    assert(self@.wf());
                    assert(self@.follows(before));
                }
                true
            },
            None => false,
        }
    }

    /// Lets the worker go on until slot `state` is settled: until the slot is
    /// ready, or the worker has nothing left to scan. Returns whether the slot
    /// is ready.
    pub fn settle(&mut self, state: u32) -> (ready: bool)
        requires
            old(self).wf(),
        ensures
            final(self).wf(),
            final(self)@ == old(self)@.run_until(state as int),
            final(self)@.follows(old(self)@),
            ready == (old(self)@.settled(state as int) is Some),
            ready ==> state < final(self)@.maps.len() && final(self)@.ready[state as int]
                && old(self)@.settled(state as int) == Some(final(self)@.maps[state as int]),
    {
        if state as usize >= self.states_to_token_maps.len() {
            return false;
        }
        let mut waiting = !self.state_notifiers[state as usize];
        while waiting
            invariant
                self.wf(),
                self@.follows(old(self)@),
                self@.run_until(state as int) == old(self)@.run_until(state as int),
                state < self@.maps.len(),
                waiting ==> !self@.ready[state as int],
                !waiting ==> self@.ready[state as int] || !self@.working(),
            decreases
                    self@.unseen() + if waiting {
                        1nat
                    } else {
                        0nat
                    },
        {
            let stepped = self.advance();
            waiting = stepped && !self.state_notifiers[state as usize];
        }
        proof {
            lemma_follows_settled(old(self)@, self@, state as int);
            if self@.ready[state as int] {
                lemma_ready_is_settled(self@, state as int);
            } else {
                lemma_idle_is_built(self@);
            }
        }
        self.state_notifiers[state as usize]
    }

    /// The map in slot `state` where the slot is ready, and none where it is
    /// not or where there is no such slot. The worker is left alone.
    pub fn peek_state_map(&self, state: u32) -> (map: Option<&FxHashMap<u32, u32>>)
        requires
            self.wf(),
        ensures
            match map {
                Some(m) => state < self@.maps.len() && self@.ready[state as int] && m@
                    == self@.maps[state as int],
                None => !(state < self@.maps.len() && self@.ready[state as int]),
            },
    {
        if (state as usize) < self.states_to_token_maps.len() && self.state_notifiers[state as usize] {
            Some(&self.states_to_token_maps[state as usize])
        } else {
            None
        }
    }

    /// Whether `state` ends a generation: it is -1 or an accepting state.
    pub fn is_final_state(&self, state: i32) -> (r: bool)
        ensures
            r == is_terminal(self@.finals, state),
    {
        is_terminal_state(&self.finals, state)
    }

    /// Whether the build has ended and its result was handed to the cache.
    pub fn is_computing_finished(&self) -> (r: bool)
        ensures
            r == self@.finished,
    {
        self.computing_finished
    }

    /// The state that follows `state` on `token_id`, or -1 where the
    /// generation ends: `state` is -1 or accepting, `token_id` is the
    /// end-of-sequence token or may not follow, or the state reached is
    /// accepting. The state 0 stands for the first state. The slot that
    /// decides is settled first.
    pub fn get_next_state(&mut self, state: i32, token_id: u32) -> (next: i32)
        requires
            old(self).wf(),
        ensures
            final(self).wf(),
            final(self)@.follows(old(self)@),
            final(self)@ == (if old(self)@.ends_at_once(state, token_id) {
                old(self)@
            } else {
                old(self)@.settled_for(state)
            }),
            next == old(self)@.next_state(state, token_id),
    {
        match next_state_slot(self.first_state, self.eos_token_id, &self.finals, state, token_id) {
            Some(current_state) => {
                self.settle(current_state);
                next_state_in(&self.finals, self.peek_state_map(current_state), token_id)
            },
            None => -1,
        }
    }

    /// What the generator is to do in `state`: to write the end-of-sequence
    /// token where `state` ends the generation or its slot settles without
    /// tokens, and else to sample from the tokens of the slot's map. The slot
    /// that decides is settled first.
    pub fn get_next_instruction(&mut self, state: i32) -> (instruction: Instruction)
        requires
            old(self).wf(),
        ensures
            final(self).wf(),
            final(self)@.follows(old(self)@),
            final(self)@ == (if is_terminal(old(self)@.finals, state) {
                old(self)@
            } else {
                old(self)@.settled_for(state)
            }),
            is_instruction_for(old(self)@.eos, old(self)@.deciding_map(state), instruction),
    {
        match instruction_slot(self.first_state, &self.finals, state) {
            Some(current_state) => {
                self.settle(current_state);
                instruction_in(self.eos_token_id, self.peek_state_map(current_state))
            },
            None => instruction_in(self.eos_token_id, None),
        }
    }

    /// The tokens that may follow in `state`: only the end-of-sequence token
    /// for the terminal id -1 and where the slot of `state` settles without a
    /// map, and else the tokens of the slot's map, in no particular order. The
    /// state 0 stands for the first state. The slot is settled first.
    pub fn get_allowed_token_ids(&mut self, state: i32) -> (tokens: Vec<i32>)
        requires
            old(self).wf(),
        ensures
            final(self).wf(),
            final(self)@.follows(old(self)@),
            final(self)@ == (if state == -1 {
                old(self)@
            } else {
                old(self)@.settled_for(state)
            }),
            is_allowed_list(old(self)@.eos, old(self)@.listing_map(state), tokens@),
    {
        match allowed_tokens_slot(self.first_state, state) {
            Some(current_state) => {
                self.settle(current_state);
                allowed_tokens_in(self.eos_token_id, self.peek_state_map(current_state))
            },
            None => allowed_tokens_in(self.eos_token_id, None),
        }
    }

    /// Waits for slot `state_index`: lets the worker go on until the slot is
    /// ready. A state without a slot is refused at once, before the worker
    /// takes a step. A state with a slot that the build does not reach is
    /// refused once the build has ended: its slot is never ready.
    pub fn await_state(&mut self, state_index: u32) -> (r: Result<(), FsmError>)
        requires
            old(self).wf(),
        ensures
            final(self).wf(),
            final(self)@.follows(old(self)@),
            final(self)@ == old(self)@.run_until(state_index as int),
            r is Ok <==> old(self)@.settled(state_index as int) is Some,
            r is Ok ==> state_index < final(self)@.maps.len()
                && final(self)@.ready[state_index as int],
            r matches Err(e) ==> e == (if state_index >= old(self)@.maps.len() {
                FsmError::StateOutOfBounds
            } else {
                FsmError::StateUnreachable
            }),
            state_index >= old(self)@.maps.len() ==> r is Err && final(self)@ == old(self)@,
    {
        if state_index as usize >= self.states_to_token_maps.len() {
            return Err(FsmError::StateOutOfBounds);
        }
        if self.settle(state_index) {
            Ok(())
        } else {
            Err(FsmError::StateUnreachable)
        }
    }

    /// A copy of the map in slot `state` once the slot is settled: the
    /// worker goes on until the slot is ready or nothing is left to scan.
    pub fn get_state_map(&mut self, state: u32) -> (map: Option<FxHashMap<u32, u32>>)
        requires
            old(self).wf(),
        ensures
            final(self).wf(),
            final(self)@.follows(old(self)@),
            final(self)@ == old(self)@.run_until(state as int),
            match map {
                Some(m) => old(self)@.settled(state as int) == Some(m@),
                None => old(self)@.settled(state as int) is None,
            },
    {
        self.settle(state);
        match self.peek_state_map(state) {
            Some(m) => Some(m.clone()),
            None => None,
        }
    }

    /// Waits for the build to end: lets the worker scan what is left, hands
    /// the built index to `cache` under the fingerprint of the inputs, and
    /// records the index as finished. An index that is finished is left as it
    /// is, and so is the cache.
    pub fn await_finished(&mut self, cache: &mut ModuleState)
        requires
            old(self).wf(),
        ensures
            final(self).wf(),
            final(self)@.follows(old(self)@),
            final(self)@ == old(self)@.completed(),
            final(cache)@ == (if old(self)@.finished {
                old(cache)@
            } else {
                old(cache)@.after_insert(old(self)@.completed().snapshot(), old(self)@.cache_key)
            }),
    {
        let mut stepped = true;
        while stepped
            invariant
                self.wf(),
                self@.follows(old(self)@),
                self@.returned == old(self)@.returned,
                self@.finished == old(self)@.finished,
                cache@ == old(cache)@,
                !stepped ==> !self@.working(),
            decreases
                    self@.unseen() + if stepped {
                        1nat
                    } else {
                        0nat
                    },
        {
            stepped = self.advance();
        }
        proof {
            lemma_idle_is_built(self@);
            lemma_follows_settled(old(self)@, self@, 0);
            assert(self@ == old(self)@.built());
        }
        if !self.computing_finished {
            let slots = self.states_to_token_maps.len();
            let mut states_to_token_maps: Vec<FxHashMap<u32, u32>> = Vec::new();
            let mut s: usize = 0;
            while s < slots
                invariant
                    s <= slots,
                    slots == self.states_to_token_maps@.len(),
                    states_to_token_maps@.len() == s,
                    forall|i: int|
                        0 <= i < s ==> (#[trigger] states_to_token_maps@[i])@
                            == self.states_to_token_maps@[i]@,
                decreases slots - s,
            {
                states_to_token_maps.push(self.states_to_token_maps[s].clone());
                s = s + 1;
            }
            let cached_fsm = CachedFSM {
                states_to_token_maps,
                first_state: self.first_state,
                finals: self.finals.clone(),
                hash: self.cache_key,
            };
            proof {
                assert(cached_fsm@.maps =~= self@.maps);
                assert(cached_fsm@ == self@.snapshot());
            }
            insert_fsm_to_cache(cache, cached_fsm, self.cache_key);
            self.computing_finished = true;
        }
    }

    /// A copy of the map of every slot under the slot's state, once the build
    /// has ended as `await_finished` describes. The slot of a state that the
    /// build does not reach is empty.
    pub fn get_states_to_token_subsets(&mut self, cache: &mut ModuleState) -> (subsets: FxHashMap<
        u32,
        FxHashMap<u32, u32>,
    >)
        requires
            old(self).wf(),
        ensures
            final(self).wf(),
            final(self)@.follows(old(self)@),
            final(self)@ == old(self)@.completed(),
            final(cache)@ == (if old(self)@.finished {
                old(cache)@
            } else {
                old(cache)@.after_insert(old(self)@.completed().snapshot(), old(self)@.cache_key)
            }),
            forall|state: u32| subsets@.contains_key(state) <==> state < final(self)@.maps.len(),
            forall|state: u32|
                subsets@.contains_key(state) ==> (#[trigger] subsets@[state])@
                    == final(self)@.maps[state as int],
    {
        self.await_finished(cache);
        let mut subsets: FxHashMap<u32, FxHashMap<u32, u32>> = new_map();
        let total_states = self.states_to_token_maps.len();
        let mut index: usize = 0;
        while index < total_states
            invariant
                index <= total_states,
                self.wf(),
                total_states == self@.maps.len(),
                forall|state: u32| subsets@.contains_key(state) <==> state < index,
                forall|state: u32|
                    subsets@.contains_key(state) ==> (#[trigger] subsets@[state])@
                        == self@.maps[state as int],
            decreases total_states - index,
        {
            map_insert(&mut subsets, index as u32, self.states_to_token_maps[index].clone());
            index = index + 1;
        }
        subsets
    }

    /// Hands out a copy of the map of every slot that is ready and was not
    /// handed out before, under the slot's state, and remembers what was
    /// handed out. The worker is left alone.
    pub fn collect_finished_states(&mut self) -> (finished_states: FxHashMap<
        u32,
        FxHashMap<u32, u32>,
    >)
        requires
            old(self).wf(),
        ensures
            final(self).wf(),
            final(self)@.follows(old(self)@),
            final(self)@ == old(self)@.collected(),
            forall|state: u32|
                finished_states@.contains_key(state) <==> old(self)@.surfaces(state as int),
            forall|state: u32|
                finished_states@.contains_key(state) ==> (#[trigger] finished_states@[state])@
                    == old(self)@.maps[state as int],
    {
        let mut finished_states: FxHashMap<u32, FxHashMap<u32, u32>> = new_map();
        let slots = select_finished(&mut self.returned_states, &self.state_notifiers);
        let mut i: usize = 0;
        while i < slots.len()
            invariant
                i <= slots@.len(),
                old(self)@.wf(),
                self.states_to_token_maps == old(self).states_to_token_maps,
                forall|slot: usize| slots@.contains(slot) <==> old(self)@.surfaces(slot as int),
                forall|state: u32|
                    finished_states@.contains_key(state) <==> exists|j: int|
                        0 <= j < i && #[trigger] slots@[j] == state,
                forall|state: u32|
                    finished_states@.contains_key(state) ==> (#[trigger] finished_states@[state])@
                        == old(self)@.maps[state as int],
            decreases slots@.len() - i,
        {
            let index = slots[i];
            assert(slots@.contains(index));
            assert(old(self)@.surfaces(index as int));
            map_insert(
                &mut finished_states,
                index as u32,
                self.states_to_token_maps[index].clone(),
            );
            i = i + 1;
        }
        proof {
            assert(self@.returned =~= old(self)@.collected().returned);
            assert(self@ == old(self)@.collected());
            let before = old(self)@;
            assert forall|state: u32|
                finished_states@.contains_key(state) <==> before.surfaces(state as int) by {
                if old(self)@.surfaces(state as int) {
                    assert(slots@.contains(state as usize));
                    let j = choose|j: int| 0 <= j < slots@.len() && slots@[j] == state as usize;
                    assert(slots@[j] == state);
                }
                if finished_states@.contains_key(state) {
                    let j = choose|j: int| 0 <= j < slots@.len() && #[trigger] slots@[j] == state;
                    assert(slots@.contains(slots@[j]));
                }
            }
        }
        finished_states
    }
}

/// A slot that a reader has seen ready stays ready and keeps its map,
/// whatever is done with the index afterwards.
pub proof fn lemma_ready_slot_is_frozen(before: LazyView, later: LazyView, state: int)
    requires
        later.follows(before),
        0 <= state < before.maps.len(),
        before.ready[state],
    ensures
        later.ready[state],
        later.maps[state] == before.maps[state],
{
}

/// Being a later state of an index carries over: what is done with an index
/// step by step leaves a later state of the index that one started with.
pub proof fn lemma_follows_transitive(first: LazyView, second: LazyView, third: LazyView)
    requires
        second.follows(first),
        third.follows(second),
    ensures
        third.follows(first),
{
}

/// The end-of-sequence token ends the generation in every state.
pub proof fn lemma_eos_is_absorbing(index: LazyView, state: i32)
    ensures
        index.next_state(state, index.eos) == -1,
{
}

/// A state that ends the generation is followed by -1 on every token, and
/// the state that follows a token never is an accepting state: so where a
/// token leads to an accepting state, -1 is returned in its place, and
/// every token after it gives -1 again.
pub proof fn lemma_sentinel_closure(index: LazyView, state: i32, token_id: u32, later_token: u32)
    ensures
        is_terminal(index.finals, index.next_state(state, token_id)) ==> index.next_state(
            index.next_state(state, token_id),
            later_token,
        ) == -1,
        index.next_state(state, token_id) != -1 ==> !index.finals.contains(
            index.next_state(state, token_id) as u32,
        ),
{
}

/// The state that follows a token in an index with a worker is -1 or a state
/// with a slot that is not accepting.
pub proof fn lemma_next_state_has_a_slot(index: LazyView, state: i32, token_id: u32)
    requires
        index.wf(),
        index.worker is Some,
    ensures
        index.next_state(state, token_id) == -1 || (0 <= index.next_state(state, token_id)
            < index.maps.len() && !index.finals.contains(index.next_state(state, token_id) as u32)),
{
    let progress = index.worker->0;
    let slot = slot_of(index.first_state, state);
    if !index.ends_at_once(state, token_id) && index.settled(slot as int) is Some {
        let map = index.settled(slot as int)->0;
        if map.contains_key(token_id) {
            crate::tokenizer_index::lemma_state_map_in_range(
                progress.automaton,
                progress.vocabulary,
                slot,
                token_id,
            );
        }
    }
}

/// The state 0 stands for the first state: a token leads from 0 where it
/// leads from the first state. This holds for the end-of-sequence token,
/// where 0 and the first state both end the generation or both do not, and
/// where the slot of the first state gives -1 for the token anyway.
pub proof fn lemma_zero_is_first_state(index: LazyView, token_id: u32)
    requires
        token_id == index.eos || is_terminal(index.finals, 0) == is_terminal(
            index.finals,
            index.first_state as i32,
        ) || next_in(index.finals, index.settled(index.first_state as int), token_id) == -1,
    ensures
        index.next_state(0, token_id) == index.next_state(index.first_state as i32, token_id),
{
    let first = index.first_state;
    assert((first as i32) as u32 == first) by (bit_vector);
    assert((first as i32 == 0) ==> first == 0) by (bit_vector);
}

/// The map in a slot agrees with the automaton: a token id in the map of a
/// slot that the worker has filled is an id of a vocabulary entry whose token
/// the automaton consumes whole from the slot's state, and the map gives the
/// state in which that walk ends.
pub proof fn lemma_slot_agrees_with_transitions(index: LazyView, state: u32, token_id: u32)
    requires
        index.wf(),
        index.worker is Some,
        state < index.maps.len(),
        index.maps[state as int].contains_key(token_id),
    ensures
        ({
            let automaton = index.worker->0.automaton;
            let vocabulary = index.worker->0.vocabulary;
            exists|i: int, j: int|
                {
                    let symbols = automaton.symbols(vocabulary.entries[i].0);
                    let states = crate::tokenizer_index::trace(automaton.table, state, symbols);
                    &&& 0 <= i < vocabulary.entries.len()
                    &&& 0 <= j < vocabulary.entries[i].1.len()
                    &&& #[trigger] vocabulary.entries[i].1[j] == token_id
                    &&& symbols.len() > 0
                    &&& states.len() == symbols.len()
                    &&& states.last() == index.maps[state as int][token_id]
                }
        }),
{
    let automaton = index.worker->0.automaton;
    let vocabulary = index.worker->0.vocabulary;
    assert(index.maps[state as int] == state_map(automaton, vocabulary, state));
    crate::tokenizer_index::lemma_map_agrees_with_transitions(
        automaton,
        vocabulary,
        state,
        token_id,
    );
}

/// Two calls of `collect_finished_states` hand out no state twice, whatever
/// is done with the index in between.
pub proof fn lemma_disjoint_surfacing(first: LazyView, later: LazyView, state: int)
    requires
        first.wf(),
        later.follows(first.collected()),
    ensures
        !(first.surfaces(state) && later.surfaces(state)),
{
}

/// Once the build of an index has ended, the states that were handed out
/// together with those that the next call of `collect_finished_states` hands
/// out are the states that tokens lead to from the initial state.
pub proof fn lemma_surfaced_are_reachable(index: LazyView, state: u32)
    requires
        index.wf(),
        index.worker is Some,
    ensures
        ({
            let done = index.completed();
            let progress = index.worker->0;
            (state < done.maps.len() && (done.returned[state as int] || done.surfaces(
                state as int,
            ))) <==> reachable(progress.automaton, progress.vocabulary, state)
        }),
{
    let progress = index.worker->0;
    if reachable(progress.automaton, progress.vocabulary, state) {
        crate::tokenizer_index::lemma_reachable_in_range(
            progress.automaton,
            progress.vocabulary,
            state,
        );
    }
}

/// Building twice from the same inputs with the cache switched on gives the
/// same map for every state: the second index takes over what the first has
/// handed to the cache, and is finished from the start.
pub proof fn lemma_cache_round_trip(
    cache: CacheView,
    automaton: Automaton,
    vocabulary: Vocabulary,
    eos: u32,
    later_eos: u32,
)
    requires
        !cache.disabled,
        automaton.wf(),
    ensures
        ({
            let key = fsm_cache_key(automaton.pattern, vocabulary);
            let first = LazyView::fresh(cache, automaton, vocabulary, eos);
            let after_first = cache.after_lookup(key);
            let done = first.completed();
            let after_build = if first.finished {
                after_first
            } else {
                after_first.after_insert(done.snapshot(), key)
            };
            let second = LazyView::fresh(after_build, automaton, vocabulary, later_eos);
            second.finished && second.maps == done.maps
        }),
{
    let key = fsm_cache_key(automaton.pattern, vocabulary);
    let first = LazyView::fresh(cache, automaton, vocabulary, eos);
    let after_first = cache.after_lookup(key);
    let done = first.completed();
    crate::caching::caching::lemma_lookup_keeps(cache, key, key);
    if !first.finished {
        crate::caching::caching::lemma_insert_then_find(after_first, done.snapshot(), key);
    }
}

} // verus!
