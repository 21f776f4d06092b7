use fsm_utils::error::FsmError;
use fsm_utils::types::{contains_state, FSMInfo, Generate, Instruction, TransitionMap, Write};
use rustc_hash::FxHashMap;

fn edges(list: &[((u32, u32), u32)]) -> FxHashMap<(u32, u32), u32> {
    let mut map = FxHashMap::default();
    for (key, target) in list {
        map.insert(*key, *target);
    }
    map
}

fn alphabet(list: &[(&str, u32)]) -> FxHashMap<String, u32> {
    let mut map = FxHashMap::default();
    for (key, symbol) in list {
        map.insert(key.to_string(), *symbol);
    }
    map
}

#[test]
fn transition_map_has_the_edges_of_the_map() {
    let table = TransitionMap::from(edges(&[((0, 0), 1), ((0, 2), 3), ((2, 1), 0)])).unwrap();
    assert_eq!(table.len(), 3);
    assert_eq!(table.get_transition(0, 0), Some(1));
    assert_eq!(table.get_transition(0, 2), Some(3));
    assert_eq!(table.get_transition(2, 1), Some(0));
    assert_eq!(table.get_transition(0, 1), None);
    assert_eq!(table.get_transition(1, 0), None);
    assert_eq!(table.get_transition(2, 2), None);
}

#[test]
fn transition_map_has_no_edge_beyond_its_rows_and_columns() {
    let table = TransitionMap::from(edges(&[((0, 0), 1), ((1, 1), 0)])).unwrap();
    assert_eq!(table.get_transition(2, 0), None);
    assert_eq!(table.get_transition(0, 2), None);
    assert_eq!(table.get_transition(usize::MAX, usize::MAX), None);
    assert!(table.get_state(2).is_none());
    assert!(table.iter_state(2).is_none());
}

#[test]
fn transition_map_of_no_edges_has_one_empty_row() {
    let table = TransitionMap::from(edges(&[])).unwrap();
    assert_eq!(table.len(), 1);
    assert_eq!(table.iter_state(0), Some(vec![u32::MAX]));
    assert_eq!(table.get_transition(0, 0), None);
}

#[test]
fn transition_map_rows_are_dense() {
    let table = TransitionMap::from(edges(&[((0, 0), 1), ((1, 2), 0)])).unwrap();
    assert_eq!(table.iter_state(0), Some(vec![1, u32::MAX, u32::MAX]));
    assert_eq!(table.iter_state(1), Some(vec![u32::MAX, u32::MAX, 0]));
    assert_eq!(table.states(), vec![0, 1]);
}

#[test]
fn state_map_get_reads_a_row() {
    let table = TransitionMap::from(edges(&[((0, 1), 7)])).unwrap();
    let row = table.get_state(0).unwrap();
    assert_eq!(row.get(0), None);
    assert_eq!(row.get(1), Some(7));
    assert_eq!(row.get(2), None);
}

#[test]
fn transition_map_refuses_the_marker_value() {
    assert_eq!(TransitionMap::from(edges(&[((u32::MAX, 0), 1)])).err(), Some(FsmError::InputInvalid));
    assert_eq!(TransitionMap::from(edges(&[((0, u32::MAX), 1)])).err(), Some(FsmError::InputInvalid));
    assert_eq!(TransitionMap::from(edges(&[((0, 0), u32::MAX)])).err(), Some(FsmError::InputInvalid));
}

#[test]
fn fsm_info_counts_the_states_it_names() {
    let fsm = FSMInfo::new(
        2,
        vec![5],
        edges(&[((0, 0), 1), ((1, 0), 7)]),
        alphabet(&[("a", 0)]),
        1,
        "a".to_string(),
    )
    .unwrap();
    assert_eq!(fsm.states(), 8);
    assert_eq!(fsm.initial(), 2);
    assert_eq!(fsm.finals(), &vec![5]);
    assert_eq!(fsm.alphabet_anything_value(), 1);
    assert_eq!(fsm.pattern(), "a");
    assert!(fsm.is_final(5));
    assert!(!fsm.is_final(2));
}

#[test]
fn fsm_info_maps_characters_to_symbols() {
    let fsm = FSMInfo::new(
        0,
        vec![1],
        edges(&[((0, 0), 1)]),
        alphabet(&[("a", 0), ("\u{1F4A1}", 4)]),
        9,
        "a".to_string(),
    )
    .unwrap();
    assert_eq!(fsm.symbol('a'), 0);
    assert_eq!(fsm.symbol('\u{1F4A1}'), 4);
    assert_eq!(fsm.symbol('b'), 9);
    assert_eq!(fsm.transitions().get_transition(0, 0), Some(1));
}

#[test]
fn fsm_info_refuses_a_state_beyond_the_signed_range() {
    let big = i32::MAX as u32 + 1;
    let make = |initial: u32, finals: Vec<u32>, list: &[((u32, u32), u32)]| {
        FSMInfo::new(initial, finals, edges(list), alphabet(&[("a", 0)]), 1, String::new()).err()
    };
    assert_eq!(make(big, vec![], &[]), Some(FsmError::InputInvalid));
    assert_eq!(make(0, vec![big], &[]), Some(FsmError::InputInvalid));
    assert_eq!(make(0, vec![], &[((big, 0), 0)]), Some(FsmError::InputInvalid));
    assert_eq!(make(0, vec![], &[((0, 0), big)]), Some(FsmError::InputInvalid));
    assert_eq!(make(0, vec![], &[((0, u32::MAX), 0)]), Some(FsmError::InputInvalid));
    assert_eq!(make(i32::MAX as u32, vec![], &[]), None);
}

#[test]
fn fsm_info_refuses_an_alphabet_key_that_is_not_one_character() {
    let make = |key: &str| {
        FSMInfo::new(0, vec![], edges(&[]), alphabet(&[(key, 0)]), 1, String::new()).err()
    };
    assert_eq!(make("ab"), Some(FsmError::InputInvalid));
    assert_eq!(make(""), Some(FsmError::InputInvalid));
    assert_eq!(make("\u{e9}"), None);
}

#[test]
fn contains_state_finds_what_is_there() {
    assert!(contains_state(&vec![3, 1, 4], 4));
    assert!(!contains_state(&vec![3, 1, 4], 2));
    assert!(!contains_state(&vec![], 0));
}

#[test]
fn instructions_keep_their_tokens() {
    assert_eq!(Write::new(vec![1, 2]).tokens, vec![1, 2]);
    assert_eq!(Generate::new(Some(vec![3])).tokens, Some(vec![3]));
    assert_eq!(Generate::new(None).tokens, None);
    match Instruction::Write(Write::new(vec![9])) {
        Instruction::Write(write) => assert_eq!(write.tokens, vec![9]),
        Instruction::Generate(_) => panic!("a write instruction was built"),
    }
}

#[test]
fn errors_say_what_failed() {
    assert_eq!(FsmError::ServiceNotRunning.message(), "Cache service is not running");
    assert_ne!(FsmError::InputInvalid.message(), FsmError::StateOutOfBounds.message());
    assert_ne!(FsmError::StateUnreachable.message(), FsmError::StateOutOfBounds.message());
}
