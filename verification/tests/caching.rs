use fsm_utils::caching::caching::{get_cached_fsm, insert_fsm_to_cache, CachedFSM, ModuleState};
use fsm_utils::caching::hashing::{get_fsm_cache_key, hash_token_vocabulary};
use fsm_utils::caching::zmq_service::{
    check_zmq_service_running, handle_message, service_address, start_zmq_thread, stop_zmq_thread,
    ZMQReciever,
};
use fsm_utils::error::FsmError;
use fsm_utils::vocab::TokenVocabulary;
use rustc_hash::FxHashMap;

fn create_sample_fsm() -> CachedFSM {
    let mut state_map = FxHashMap::default();
    state_map.insert(1, 2);
    CachedFSM { states_to_token_maps: vec![state_map], first_state: 1, finals: vec![2], hash: 12345 }
}

fn sample(hash: u64, first_state: u32) -> CachedFSM {
    CachedFSM { states_to_token_maps: vec![], first_state, finals: vec![], hash }
}

fn numbered(count: u32) -> TokenVocabulary {
    let mut vocabulary = TokenVocabulary::new(42);
    for i in 0..count {
        vocabulary.add_token(format!("{:03}", i), vec![i]);
    }
    vocabulary
}

#[test]
fn test_hash_token_vocabulary() {
    let mut token_to_ids = FxHashMap::default();

    for i in (0..150).rev() {
        token_to_ids.insert(format!("{:03}", i), vec![i as u32]);
    }

    let eos_token_id = 42;
    let vocab = TokenVocabulary::from_hashmap(token_to_ids.clone(), eos_token_id);
    let hash1 = hash_token_vocabulary(&vocab);

    let mut token_to_ids2 = token_to_ids;
    token_to_ids2.insert("000".to_string(), vec![999]);
    let vocab2 = TokenVocabulary::from_hashmap(token_to_ids2, eos_token_id);
    let hash2 = hash_token_vocabulary(&vocab2);

    assert_ne!(hash1, hash2);
}

#[test]
fn fingerprint_is_the_same_for_the_same_inputs() {
    let first = numbered(150);
    let second = numbered(150);
    assert_eq!(hash_token_vocabulary(&first), hash_token_vocabulary(&second));
    assert_eq!(get_fsm_cache_key("[a-c]+", &first), get_fsm_cache_key("[a-c]+", &second));
    assert_eq!(get_fsm_cache_key("", &first.clone()), get_fsm_cache_key("", &first));
}

#[test]
fn fingerprint_tells_patterns_apart() {
    let vocabulary = numbered(10);
    assert_ne!(get_fsm_cache_key("a", &vocabulary), get_fsm_cache_key("b", &vocabulary));
    assert_ne!(get_fsm_cache_key("a", &vocabulary), hash_token_vocabulary(&vocabulary));
}

#[test]
fn fingerprint_covers_the_length_and_the_first_hundred_entries() {
    let base = numbered(150);
    let mut changed_head = numbered(150);
    changed_head.remove_token("099");
    changed_head.add_token("099".to_string(), vec![99]);
    assert_ne!(hash_token_vocabulary(&base), hash_token_vocabulary(&changed_head));

    let mut changed_tail = numbered(149);
    changed_tail.add_token("other".to_string(), vec![7]);
    assert_eq!(hash_token_vocabulary(&base), hash_token_vocabulary(&changed_tail));

    assert_ne!(hash_token_vocabulary(&base), hash_token_vocabulary(&numbered(151)));
}

#[test]
fn fingerprint_covers_tokens_and_ids() {
    let mut one = TokenVocabulary::new(0);
    one.add_token("ab".to_string(), vec![1]);
    let mut other_token = TokenVocabulary::new(0);
    other_token.add_token("ac".to_string(), vec![1]);
    let mut other_id = TokenVocabulary::new(0);
    other_id.add_token("ab".to_string(), vec![2]);
    let mut more_ids = TokenVocabulary::new(0);
    more_ids.add_token("ab".to_string(), vec![1, 1]);
    let hash = hash_token_vocabulary(&one);
    assert_ne!(hash, hash_token_vocabulary(&other_token));
    assert_ne!(hash, hash_token_vocabulary(&other_id));
    assert_ne!(hash, hash_token_vocabulary(&more_ids));
}

#[test]
fn fingerprint_leaves_the_eos_id_aside() {
    let mut one = TokenVocabulary::new(1);
    one.add_token("a".to_string(), vec![1]);
    let mut two = TokenVocabulary::new(2);
    two.add_token("a".to_string(), vec![1]);
    assert_eq!(hash_token_vocabulary(&one), hash_token_vocabulary(&two));
}

#[test]
fn cache_finds_what_was_inserted() {
    let mut cache = ModuleState::new(2, false);
    assert!(get_cached_fsm(&mut cache, 12345).is_none());
    insert_fsm_to_cache(&mut cache, create_sample_fsm(), 12345);
    let found = get_cached_fsm(&mut cache, 12345).unwrap();
    assert_eq!(found.first_state, 1);
    assert_eq!(found.finals, vec![2]);
    assert_eq!(found.hash, 12345);
    assert_eq!(found.states_to_token_maps[0].get(&1), Some(&2));
    assert!(get_cached_fsm(&mut cache, 54321).is_none());
}

#[test]
fn cache_replaces_an_entry_under_the_same_key() {
    let mut cache = ModuleState::new(2, false);
    insert_fsm_to_cache(&mut cache, sample(1, 10), 1);
    insert_fsm_to_cache(&mut cache, sample(1, 11), 1);
    assert_eq!(get_cached_fsm(&mut cache, 1).unwrap().first_state, 11);
}

#[test]
fn cache_evicts_the_entry_used_least_recently() {
    let mut cache = ModuleState::new(2, false);
    insert_fsm_to_cache(&mut cache, sample(1, 10), 1);
    insert_fsm_to_cache(&mut cache, sample(2, 20), 2);
    assert!(get_cached_fsm(&mut cache, 1).is_some());
    insert_fsm_to_cache(&mut cache, sample(3, 30), 3);
    assert!(get_cached_fsm(&mut cache, 2).is_none());
    assert_eq!(get_cached_fsm(&mut cache, 1).unwrap().first_state, 10);
    assert_eq!(get_cached_fsm(&mut cache, 3).unwrap().first_state, 30);
}

#[test]
fn cache_of_one_entry_keeps_the_latest() {
    let mut cache = ModuleState::new(1, false);
    insert_fsm_to_cache(&mut cache, sample(1, 10), 1);
    insert_fsm_to_cache(&mut cache, sample(2, 20), 2);
    assert!(get_cached_fsm(&mut cache, 1).is_none());
    assert!(get_cached_fsm(&mut cache, 2).is_some());
}

#[test]
fn disabled_cache_finds_nothing_and_keeps_nothing() {
    let mut cache = ModuleState::new(2, true);
    assert!(cache.is_disabled());
    insert_fsm_to_cache(&mut cache, create_sample_fsm(), 12345);
    assert!(get_cached_fsm(&mut cache, 12345).is_none());
    assert!(!ModuleState::new(2, false).is_disabled());
}

/// The service starts and stops, and takes an index into the cache.
#[test]
fn test_send_receive_fsm() {
    let mut service = ZMQReciever::new();
    let mut cache = ModuleState::new(100, false);
    assert!(start_zmq_thread(&mut service).is_ok());

    let fsm = create_sample_fsm();
    let hash = fsm.hash;

    let response = handle_message(&mut cache, Some(fsm)).unwrap();
    assert_eq!(response, "Inserted");
    println!("fsm inserted");

    assert!(get_cached_fsm(&mut cache, hash).is_some(), "FSM should be cached");
    println!("FSM found in cache");
    assert!(stop_zmq_thread(&mut service).is_ok());
}

#[test]
fn service_takes_a_message_into_the_cache() {
    let mut cache = ModuleState::new(2, false);
    let fsm = create_sample_fsm();
    let hash = fsm.hash;
    let response = handle_message(&mut cache, Some(fsm));
    assert_eq!(response, Some("Inserted".to_string()));
    assert!(get_cached_fsm(&mut cache, hash).is_some());
    assert_eq!(handle_message(&mut cache, None), None);
}

#[test]
fn service_knows_whether_it_runs() {
    let mut service = ZMQReciever::new();
    assert_eq!(
        check_zmq_service_running(&service, true),
        (false, "ipc:///tmp/faster_outlines_cache_reciever.ipc".to_string())
    );
    assert_eq!(service.stop_cache_service(), Err(FsmError::ServiceNotRunning));
    assert_eq!(stop_zmq_thread(&mut service), Err(FsmError::ServiceNotRunning));
    service.start_cache_service();
    assert_eq!(
        check_zmq_service_running(&service, false),
        (true, "tcp://127.0.0.1:5555".to_string())
    );
    assert_eq!(service.stop_cache_service(), Ok(()));
    assert!(!check_zmq_service_running(&service, true).0);
    assert_eq!(service_address(true), "ipc:///tmp/faster_outlines_cache_reciever.ipc");
}
