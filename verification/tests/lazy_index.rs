use fixedbitset::FixedBitSet;
use fsm_utils::caching::caching::ModuleState;
use fsm_utils::error::FsmError;
use fsm_utils::lazy_index::{
    allowed_tokens_in, allowed_tokens_slot, instruction_in, instruction_slot, is_terminal_state,
    next_state_in, next_state_slot, select_finished, slot_for, LazyFSMIndex,
};
use fsm_utils::types::{FSMInfo, Instruction};
use fsm_utils::vocab::TokenVocabulary;
use rustc_hash::FxHashMap;

fn automaton(
    initial: u32,
    finals: &[u32],
    edges: &[((u32, u32), u32)],
    letters: &[(&str, u32)],
    anything: u32,
    pattern: &str,
) -> FSMInfo {
    let mut transitions = FxHashMap::default();
    for (key, target) in edges {
        transitions.insert(*key, *target);
    }
    let mut alphabet = FxHashMap::default();
    for (letter, symbol) in letters {
        alphabet.insert(letter.to_string(), *symbol);
    }
    FSMInfo::new(initial, finals.to_vec(), transitions, alphabet, anything, pattern.to_string())
        .unwrap()
}

fn vocabulary(entries: &[(&str, &[u32])], eos: u32) -> TokenVocabulary {
    let mut vocabulary = TokenVocabulary::new(eos);
    for (token, ids) in entries {
        vocabulary.add_token(token.to_string(), ids.to_vec());
    }
    vocabulary
}

fn sorted(mut tokens: Vec<i32>) -> Vec<i32> {
    tokens.sort();
    tokens
}

fn generated(instruction: Instruction) -> Vec<i32> {
    match instruction {
        Instruction::Generate(generate) => sorted(generate.tokens.unwrap()),
        Instruction::Write(_) => panic!("a generate instruction was expected"),
    }
}

fn written(instruction: Instruction) -> Vec<i32> {
    match instruction {
        Instruction::Write(write) => write.tokens,
        Instruction::Generate(_) => panic!("a write instruction was expected"),
    }
}

fn no_cache() -> ModuleState {
    ModuleState::new(4, true)
}

/// `[a-c]+`: state 1 accepts and loops.
fn abc_plus() -> FSMInfo {
    automaton(
        0,
        &[1],
        &[((0, 0), 1), ((0, 1), 1), ((0, 2), 1), ((1, 0), 1), ((1, 1), 1), ((1, 2), 1)],
        &[("a", 0), ("b", 1), ("c", 2)],
        3,
        "[a-c]+",
    )
}

fn abc_vocabulary() -> TokenVocabulary {
    vocabulary(&[("a", &[7]), ("b", &[8]), ("c", &[9]), ("ab", &[15]), ("bc", &[16])], 99)
}

/// `cat|dog`: states 3 and 6 accept.
fn cat_or_dog() -> FSMInfo {
    automaton(
        0,
        &[3, 6],
        &[((0, 0), 1), ((1, 1), 2), ((2, 2), 3), ((0, 3), 4), ((4, 4), 5), ((5, 5), 6)],
        &[("c", 0), ("a", 1), ("t", 2), ("d", 3), ("o", 4), ("g", 5)],
        6,
        "cat|dog",
    )
}

fn cat_dog_vocabulary() -> TokenVocabulary {
    vocabulary(&[("c", &[1]), ("a", &[2]), ("t", &[3]), ("d", &[4]), ("o", &[5]), ("g", &[6])], 0)
}

/// `[0-9]{3}`: state 3 accepts.
fn three_digits() -> FSMInfo {
    let digits = ["0", "1", "2", "3", "4", "5", "6", "7", "8", "9"];
    let letters: Vec<(&str, u32)> = digits.iter().map(|d| (*d, 0u32)).collect();
    automaton(0, &[3], &[((0, 0), 1), ((1, 0), 2), ((2, 0), 3)], &letters, 1, "[0-9]{3}")
}

fn digit_vocabulary() -> TokenVocabulary {
    let mut vocabulary = TokenVocabulary::new(99);
    for digit in 0..10u32 {
        vocabulary.add_token(digit.to_string(), vec![10 + digit]);
    }
    vocabulary
}

/// `hello`: an automaton that starts in state 1; state 6 accepts.
fn hello() -> FSMInfo {
    automaton(
        1,
        &[6],
        &[((1, 0), 2), ((2, 1), 3), ((3, 2), 4), ((4, 2), 5), ((5, 3), 6)],
        &[("h", 0), ("e", 1), ("l", 2), ("o", 3)],
        4,
        "hello",
    )
}

fn hello_vocabulary() -> TokenVocabulary {
    vocabulary(&[("h", &[21]), ("e", &[22]), ("l", &[23]), ("o", &[24]), ("hello", &[25])], 0)
}

#[test]
fn repeated_class_ends_in_its_accepting_state() {
    let mut index = LazyFSMIndex::new(abc_plus(), &abc_vocabulary(), 99, &mut no_cache()).unwrap();
    // State 1 accepts, so the step into it ends the generation.
    assert_eq!(index.get_next_state(0, 7), -1);
    assert_eq!(index.get_next_state(1, 15), -1);
    assert_eq!(index.get_next_state(1, 99), -1);
    assert_eq!(sorted(index.get_allowed_token_ids(1)), vec![7, 8, 9, 15, 16]);
    assert_eq!(sorted(index.get_allowed_token_ids(0)), vec![7, 8, 9, 15, 16]);
    let map = index.get_state_map(0).unwrap();
    assert_eq!(map.get(&7), Some(&1));
    let map = index.get_state_map(1).unwrap();
    assert_eq!(map.get(&15), Some(&1));
}

#[test]
fn alternation_is_followed_letter_by_letter() {
    let mut index =
        LazyFSMIndex::new(cat_or_dog(), &cat_dog_vocabulary(), 0, &mut no_cache()).unwrap();
    assert_eq!(sorted(index.get_allowed_token_ids(0)), vec![1, 4]);
    let after_c = index.get_next_state(0, 1);
    assert_eq!(after_c, 1);
    assert_eq!(sorted(index.get_allowed_token_ids(after_c)), vec![2]);
    let after_a = index.get_next_state(after_c, 2);
    assert_eq!(after_a, 2);
    assert_eq!(sorted(index.get_allowed_token_ids(after_a)), vec![3]);
    assert_eq!(index.get_next_state(after_a, 3), -1);
    assert_eq!(generated(index.get_next_instruction(0)), vec![1, 4]);
    assert_eq!(index.get_next_state(0, 4), 4);
    assert_eq!(index.get_next_state(4, 5), 5);
    assert_eq!(index.get_next_state(5, 6), -1);
}

#[test]
fn three_digits_have_a_thousand_paths() {
    let mut index =
        LazyFSMIndex::new(three_digits(), &digit_vocabulary(), 99, &mut no_cache()).unwrap();
    let mut accepted = 0;
    for first in 10..20u32 {
        let one = index.get_next_state(0, first);
        assert_eq!(one, 1);
        for second in 10..20u32 {
            let two = index.get_next_state(one, second);
            assert_eq!(two, 2);
            for third in 10..20u32 {
                let three = index.get_next_state(two, third);
                assert_eq!(three, -1);
                assert_eq!(written(index.get_next_instruction(three)), vec![99]);
                accepted += 1;
            }
        }
    }
    assert_eq!(accepted, 1000);
    assert_eq!(written(index.get_next_instruction(3)), vec![99]);
}

#[test]
fn literal_is_spelled_or_taken_whole() {
    let mut index = LazyFSMIndex::new(hello(), &hello_vocabulary(), 0, &mut no_cache()).unwrap();
    // Token 25 spells the whole pattern and leads into the accepting state.
    assert_eq!(index.get_next_state(0, 25), -1);
    assert_eq!(index.get_state_map(1).unwrap().get(&25), Some(&6));
    assert!(index.is_final_state(6));
    let after_h = index.get_next_state(0, 21);
    assert_eq!(after_h, 2);
    assert_eq!(sorted(index.get_allowed_token_ids(after_h)), vec![22]);
    assert_eq!(generated(index.get_next_instruction(after_h)), vec![22]);
}

#[test]
fn wildcard_takes_characters_outside_the_alphabet() {
    let fsm = automaton(
        0,
        &[0, 1],
        &[((0, 0), 1), ((0, 1), 1), ((0, 2), 1), ((1, 0), 1), ((1, 1), 1), ((1, 2), 1)],
        &[("x", 0), ("y", 1)],
        2,
        ".*",
    );
    let words = vocabulary(&[("x", &[30]), ("y", &[31]), ("\u{1F4A1}", &[32])], 0);
    let mut index = LazyFSMIndex::new(fsm, &words, 0, &mut no_cache()).unwrap();
    let map = index.get_state_map(0).unwrap();
    assert_eq!(map.len(), 3);
    for token in [30u32, 31, 32] {
        let next = *map.get(&token).unwrap();
        assert_eq!(next, 1);
        assert!(index.is_final_state(next as i32));
    }
    // The initial state accepts, so the generation may end at once.
    assert_eq!(written(index.get_next_instruction(0)), vec![0]);
}

#[test]
fn second_build_is_a_cache_hit() {
    let mut cache = ModuleState::new(4, false);
    let mut first = LazyFSMIndex::new(abc_plus(), &abc_vocabulary(), 99, &mut cache).unwrap();
    assert!(!first.is_computing_finished());
    first.await_finished(&mut cache);
    assert!(first.is_computing_finished());
    let mut second = LazyFSMIndex::new(abc_plus(), &abc_vocabulary(), 99, &mut cache).unwrap();
    assert!(second.is_computing_finished());
    for state in 0..2u32 {
        assert_eq!(first.get_state_map(state), second.get_state_map(state));
    }
    assert!(second.get_state_map(2).is_none());
    assert_eq!(second.get_next_state(0, 7), first.get_next_state(0, 7));
}

#[test]
fn disabled_cache_makes_every_build_a_miss() {
    let mut cache = ModuleState::new(4, true);
    let mut first = LazyFSMIndex::new(abc_plus(), &abc_vocabulary(), 99, &mut cache).unwrap();
    first.await_finished(&mut cache);
    let mut second = LazyFSMIndex::new(abc_plus(), &abc_vocabulary(), 99, &mut cache).unwrap();
    assert!(!second.is_computing_finished());
    second.await_finished(&mut cache);
    for state in 0..2u32 {
        assert_eq!(first.get_state_map(state), second.get_state_map(state));
    }
}

#[test]
fn empty_vocabulary_is_refused() {
    let result = LazyFSMIndex::new(abc_plus(), &TokenVocabulary::new(0), 0, &mut no_cache());
    assert_eq!(result.err(), Some(FsmError::InputInvalid));
}

#[test]
fn eos_is_absorbing() {
    let mut index =
        LazyFSMIndex::new(cat_or_dog(), &cat_dog_vocabulary(), 0, &mut no_cache()).unwrap();
    for state in [-7, -1, 0, 1, 2, 3, 4, 5, 6, 7, 100, i32::MAX, i32::MIN] {
        assert_eq!(index.get_next_state(state, 0), -1);
    }
}

#[test]
fn finals_are_followed_by_the_terminal_state() {
    let mut index =
        LazyFSMIndex::new(cat_or_dog(), &cat_dog_vocabulary(), 0, &mut no_cache()).unwrap();
    for state in 0..7 {
        for token in 0..8u32 {
            let next = index.get_next_state(state, token);
            assert!(next == -1 || !index.is_final_state(next));
            if index.is_final_state(next) {
                for later in 0..8u32 {
                    assert_eq!(index.get_next_state(next, later), -1);
                }
            }
        }
    }
    for token in 0..8u32 {
        assert_eq!(index.get_next_state(3, token), -1);
        assert_eq!(index.get_next_state(6, token), -1);
    }
}

#[test]
fn zero_stands_for_the_first_state() {
    let mut index = LazyFSMIndex::new(hello(), &hello_vocabulary(), 0, &mut no_cache()).unwrap();
    for token in [0u32, 21, 22, 23, 24, 25, 26] {
        assert_eq!(index.get_next_state(0, token), index.get_next_state(1, token));
    }
    assert_eq!(index.get_next_state(0, 21), 2);
    assert_eq!(
        sorted(index.get_allowed_token_ids(0)),
        sorted(index.get_allowed_token_ids(1))
    );
    assert_eq!(generated(index.get_next_instruction(0)), vec![21, 25]);
}

#[test]
fn a_token_that_may_not_follow_ends_the_generation() {
    let mut index =
        LazyFSMIndex::new(cat_or_dog(), &cat_dog_vocabulary(), 0, &mut no_cache()).unwrap();
    assert_eq!(index.get_next_state(0, 2), -1);
    assert_eq!(index.get_next_state(1, 77), -1);
}

#[test]
fn a_state_without_a_slot_ends_the_generation() {
    let mut index =
        LazyFSMIndex::new(cat_or_dog(), &cat_dog_vocabulary(), 0, &mut no_cache()).unwrap();
    assert_eq!(index.get_next_state(7, 1), -1);
    assert_eq!(index.get_next_state(-5, 1), -1);
    assert_eq!(written(index.get_next_instruction(7)), vec![0]);
    assert_eq!(index.get_allowed_token_ids(7), vec![0]);
    assert_eq!(index.get_allowed_token_ids(-1), vec![0]);
    assert!(index.get_state_map(7).is_none());
}

#[test]
fn an_accepting_state_without_tokens_writes_eos() {
    let mut index =
        LazyFSMIndex::new(cat_or_dog(), &cat_dog_vocabulary(), 0, &mut no_cache()).unwrap();
    assert_eq!(written(index.get_next_instruction(3)), vec![0]);
    assert_eq!(written(index.get_next_instruction(-1)), vec![0]);
    assert_eq!(index.get_allowed_token_ids(3), Vec::<i32>::new());
}

#[test]
fn an_unreachable_state_settles_without_a_map() {
    let fsm = automaton(
        0,
        &[2],
        &[((0, 0), 1), ((1, 0), 2), ((4, 0), 1)],
        &[("a", 0)],
        1,
        "aa",
    );
    let mut index =
        LazyFSMIndex::new(fsm, &vocabulary(&[("a", &[1])], 9), 9, &mut no_cache()).unwrap();
    assert!(index.get_state_map(4).is_none());
    assert_eq!(index.get_next_state(4, 1), -1);
    assert_eq!(written(index.get_next_instruction(4)), vec![9]);
    assert_eq!(index.get_allowed_token_ids(4), vec![9]);
}

#[test]
fn await_state_is_ok_for_a_ready_slot_only() {
    let fsm = automaton(
        0,
        &[2],
        &[((0, 0), 1), ((1, 0), 2), ((4, 0), 1)],
        &[("a", 0)],
        1,
        "aa",
    );
    let mut index =
        LazyFSMIndex::new(fsm, &vocabulary(&[("a", &[1])], 9), 9, &mut no_cache()).unwrap();
    assert_eq!(index.await_state(5), Err(FsmError::StateOutOfBounds));
    assert!(index.peek_state_map(0).is_none());
    assert_eq!(index.await_state(1), Ok(()));
    assert!(index.peek_state_map(1).is_some());
    assert!(index.peek_state_map(2).is_none());
    assert_eq!(index.await_state(4), Err(FsmError::StateUnreachable));
    assert_eq!(index.await_state(3), Err(FsmError::StateUnreachable));
    assert!(index.peek_state_map(4).is_none());
    assert!(index.peek_state_map(3).is_none());
    assert_eq!(index.await_state(2), Ok(()));
    assert!(index.peek_state_map(2).is_some());
    assert_eq!(index.await_state(0), Ok(()));
}

#[test]
fn await_state_settles_the_slot() {
    let mut index =
        LazyFSMIndex::new(cat_or_dog(), &cat_dog_vocabulary(), 0, &mut no_cache()).unwrap();
    assert!(index.peek_state_map(0).is_none());
    assert_eq!(index.await_state(0), Ok(()));
    assert_eq!(index.peek_state_map(0).unwrap().len(), 2);
    assert!(index.peek_state_map(4).is_none());
    assert_eq!(index.await_state(7), Err(FsmError::StateOutOfBounds));
}

#[test]
fn collect_hands_out_each_state_once() {
    let mut cache = no_cache();
    let mut index = LazyFSMIndex::new(cat_or_dog(), &cat_dog_vocabulary(), 0, &mut cache).unwrap();
    assert!(index.collect_finished_states().is_empty());
    assert!(index.advance());
    let first = index.collect_finished_states();
    assert_eq!(first.keys().copied().collect::<Vec<u32>>(), vec![0]);
    assert_eq!(first[&0].len(), 2);
    assert!(index.collect_finished_states().is_empty());
    assert!(index.advance());
    assert!(index.advance());
    let second = index.collect_finished_states();
    let mut states: Vec<u32> = second.keys().copied().collect();
    states.sort();
    assert_eq!(states, vec![1, 2]);
    index.await_finished(&mut cache);
    let third = index.collect_finished_states();
    let mut rest: Vec<u32> = third.keys().copied().collect();
    rest.sort();
    assert_eq!(rest, vec![3, 4, 5, 6]);
    assert!(index.collect_finished_states().is_empty());
    assert!(!index.advance());
}

#[test]
fn collect_hands_out_the_reachable_states_only() {
    let fsm = automaton(
        0,
        &[2],
        &[((0, 0), 1), ((1, 0), 2), ((4, 0), 1)],
        &[("a", 0)],
        1,
        "aa",
    );
    let mut cache = no_cache();
    let mut index = LazyFSMIndex::new(fsm, &vocabulary(&[("a", &[1])], 9), 9, &mut cache).unwrap();
    index.await_finished(&mut cache);
    let mut states: Vec<u32> = index.collect_finished_states().keys().copied().collect();
    states.sort();
    assert_eq!(states, vec![0, 1, 2]);
}

#[test]
fn a_ready_slot_keeps_its_map() {
    let mut cache = no_cache();
    let mut index = LazyFSMIndex::new(cat_or_dog(), &cat_dog_vocabulary(), 0, &mut cache).unwrap();
    index.await_state(0).unwrap();
    let seen = index.peek_state_map(0).unwrap().clone();
    index.await_finished(&mut cache);
    index.collect_finished_states();
    index.get_next_state(5, 6);
    assert_eq!(index.peek_state_map(0), Some(&seen));
}

#[test]
fn synonym_tokens_lead_to_the_same_state() {
    let mut index = LazyFSMIndex::new(
        cat_or_dog(),
        &vocabulary(&[("c", &[1, 11, 12]), ("d", &[4])], 0),
        0,
        &mut no_cache(),
    )
    .unwrap();
    assert_eq!(sorted(index.get_allowed_token_ids(0)), vec![1, 4, 11, 12]);
    assert_eq!(index.get_next_state(0, 1), 1);
    assert_eq!(index.get_next_state(0, 11), 1);
    assert_eq!(index.get_next_state(0, 12), 1);
}

#[test]
fn large_token_ids_wrap_into_the_signed_range() {
    let mut index = LazyFSMIndex::new(
        cat_or_dog(),
        &vocabulary(&[("c", &[u32::MAX - 1])], 5),
        5,
        &mut no_cache(),
    )
    .unwrap();
    assert_eq!(index.get_allowed_token_ids(0), vec![-2]);
    assert_eq!(index.get_next_state(0, u32::MAX - 1), 1);
}

#[test]
fn slot_and_terminal_decisions() {
    assert_eq!(slot_for(4, 0), 4);
    assert_eq!(slot_for(4, 3), 3);
    assert_eq!(slot_for(4, -1), u32::MAX);
    assert!(is_terminal_state(&vec![2], -1));
    assert!(is_terminal_state(&vec![2], 2));
    assert!(!is_terminal_state(&vec![2], 1));
}

#[test]
fn select_finished_hands_out_what_is_ready_and_new() {
    let mut returned = FixedBitSet::with_capacity(5);
    returned.insert(1);
    let ready = vec![true, true, false, true, false];
    assert_eq!(select_finished(&mut returned, &ready), vec![0, 3]);
    assert_eq!(returned.ones().collect::<Vec<usize>>(), vec![0, 1, 3]);
    assert_eq!(select_finished(&mut returned, &ready), Vec::<usize>::new());
    let all = vec![true; 5];
    assert_eq!(select_finished(&mut returned, &all), vec![2, 4]);
    assert_eq!(select_finished(&mut FixedBitSet::with_capacity(0), &vec![]), Vec::<usize>::new());
}

#[test]
fn decisions_on_the_slot_to_read() {
    let finals = vec![2];
    assert_eq!(next_state_slot(4, 9, &finals, 0, 1), Some(4));
    assert_eq!(next_state_slot(4, 9, &finals, 3, 1), Some(3));
    assert_eq!(next_state_slot(4, 9, &finals, -1, 1), None);
    assert_eq!(next_state_slot(4, 9, &finals, 2, 1), None);
    assert_eq!(next_state_slot(4, 9, &finals, 3, 9), None);
    assert_eq!(next_state_slot(4, 9, &finals, -5, 1), Some(u32::MAX - 4));
    assert_eq!(instruction_slot(4, &finals, 0), Some(4));
    assert_eq!(instruction_slot(4, &finals, 2), None);
    assert_eq!(instruction_slot(4, &finals, -1), None);
    assert_eq!(allowed_tokens_slot(4, 0), Some(4));
    assert_eq!(allowed_tokens_slot(4, 2), Some(2));
    assert_eq!(allowed_tokens_slot(4, -1), None);
}

#[test]
fn decisions_on_the_map_of_a_slot() {
    let mut map = FxHashMap::default();
    map.insert(1u32, 2u32);
    map.insert(3, 4);
    let finals = vec![4];
    assert_eq!(next_state_in(&finals, Some(&map), 1), 2);
    assert_eq!(next_state_in(&finals, Some(&map), 3), -1);
    assert_eq!(next_state_in(&finals, Some(&map), 5), -1);
    assert_eq!(next_state_in(&finals, None, 1), -1);
    assert_eq!(sorted(allowed_tokens_in(9, Some(&map))), vec![1, 3]);
    assert_eq!(allowed_tokens_in(9, None), vec![9]);
    assert_eq!(allowed_tokens_in(9, Some(&FxHashMap::default())), Vec::<i32>::new());
    assert_eq!(generated(instruction_in(9, Some(&map))), vec![1, 3]);
    assert_eq!(written(instruction_in(9, None)), vec![9]);
    assert_eq!(written(instruction_in(9, Some(&FxHashMap::default()))), vec![9]);
}
