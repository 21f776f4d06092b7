use fsm_utils::error::FsmError;
use fsm_utils::maps::new_text_map;
use fsm_utils::vocab::{byte_to_symbol, find_token, preprocess_token, put_ids, TokenVocabulary};
use rustc_hash::{FxHashMap, FxHashSet};

fn entries(vocabulary: &TokenVocabulary) -> Vec<(String, Vec<u32>)> {
    vocabulary.iter()
}

fn owned(list: &[(&str, &[u32])]) -> Vec<(String, Vec<u32>)> {
    list.iter().map(|(token, ids)| (token.to_string(), ids.to_vec())).collect()
}

#[test]
fn byte_to_symbol_writes_low_bytes_as_themselves() {
    assert_eq!(byte_to_symbol(0x41), "A");
    assert_eq!(byte_to_symbol(0x20), " ");
    assert_eq!(byte_to_symbol(0x00), "\u{0}");
    assert_eq!(byte_to_symbol(0x7F), "\u{7f}");
}

#[test]
fn byte_to_symbol_writes_high_bytes_in_hexadecimal() {
    assert_eq!(byte_to_symbol(0x80), "\u{0}80");
    assert_eq!(byte_to_symbol(0xAB), "\u{0}AB");
    assert_eq!(byte_to_symbol(0xFF), "\u{0}FF");
    assert_eq!(byte_to_symbol(0x9C), "\u{0}9C");
}

#[test]
fn preprocess_token_decodes_byte_tokens() {
    assert_eq!(preprocess_token("<0x41>"), "A");
    assert_eq!(preprocess_token("<0x20>"), " ");
    assert_eq!(preprocess_token("<0x0A>"), "\n");
    assert_eq!(preprocess_token("<0xE2>"), "\u{0}E2");
    assert_eq!(preprocess_token("<0xFF>"), "\u{0}FF");
}

#[test]
fn preprocess_token_leaves_what_is_no_byte_token() {
    assert_eq!(preprocess_token("<0xe2>"), "<0xe2>");
    assert_eq!(preprocess_token("<0xG0>"), "<0xG0>");
    assert_eq!(preprocess_token("<0x4>"), "<0x4>");
    assert_eq!(preprocess_token("<0x414>"), "<0x414>");
    assert_eq!(preprocess_token(" <0x41>"), " <0x41>");
    assert_eq!(preprocess_token("hello"), "hello");
    assert_eq!(preprocess_token(""), "");
    assert_eq!(preprocess_token("\u{fffd}"), "\u{fffd}");
}

#[test]
fn preprocess_token_turns_a_leading_word_boundary_into_a_space() {
    assert_eq!(preprocess_token("\u{2581}Hello"), " Hello");
    assert_eq!(preprocess_token("\u{2581}"), " ");
    assert_eq!(preprocess_token("\u{2581}\u{2581}a"), " \u{2581}a");
    assert_eq!(preprocess_token("a\u{2581}b"), "a\u{2581}b");
    assert_eq!(preprocess_token("\u{2581}<0x41>"), " <0x41>");
}

#[test]
fn preprocess_token_is_idempotent() {
    for token in ["<0x41>", "<0xE2>", "\u{2581}Hi", "\u{2581}\u{2581}", "plain", "", "<0x3C>"] {
        let once = preprocess_token(token);
        assert_eq!(preprocess_token(&once), once);
    }
}

#[test]
fn vocabulary_keeps_entries_in_order() {
    let mut vocabulary = TokenVocabulary::new(7);
    assert!(vocabulary.is_empty());
    vocabulary.add_token("b".to_string(), vec![2]);
    vocabulary.add_token("a".to_string(), vec![1, 3]);
    assert_eq!(vocabulary.len(), 2);
    assert!(!vocabulary.is_empty());
    assert_eq!(vocabulary.eos_token_id(), 7);
    assert_eq!(vocabulary.token(0), "b");
    assert_eq!(vocabulary.ids(1), &vec![1, 3]);
    assert_eq!(entries(&vocabulary), owned(&[("b", &[2]), ("a", &[1, 3])]));
    assert_eq!(vocabulary.get_values(), vec![&vec![2], &vec![1, 3]]);
    assert_eq!(vocabulary.iter_values(), vec![&vec![2], &vec![1, 3]]);
    assert_eq!(vocabulary.values(), &vec![vec![2], vec![1, 3]]);
    assert_eq!(entries(&vocabulary.clone()), entries(&vocabulary));
}

#[test]
fn default_vocabulary_is_empty() {
    let vocabulary = TokenVocabulary::default();
    assert_eq!(vocabulary.len(), 0);
    assert_eq!(vocabulary.eos_token_id(), 0);
}

#[test]
fn remove_token_takes_the_first_entry_of_the_token() {
    let mut vocabulary = TokenVocabulary::new(0);
    vocabulary.add_token("a".to_string(), vec![1]);
    vocabulary.add_token("b".to_string(), vec![2]);
    vocabulary.add_token("a".to_string(), vec![3]);
    assert_eq!(vocabulary.remove_token("a"), Some(vec![1]));
    assert_eq!(entries(&vocabulary), owned(&[("b", &[2]), ("a", &[3])]));
    assert_eq!(vocabulary.remove_token("c"), None);
    assert_eq!(vocabulary.len(), 2);
    assert_eq!(vocabulary.remove_token("a"), Some(vec![3]));
    assert_eq!(vocabulary.remove_token("a"), None);
}

#[test]
fn from_hashmap_lists_the_map_in_ascending_order() {
    let mut map = FxHashMap::default();
    for token in ["pear", "apple", "fig", "", "apples", "\u{e9}t\u{e9}", "zoo"] {
        map.insert(token.to_string(), vec![token.len() as u32]);
    }
    let vocabulary = TokenVocabulary::from_hashmap(map, 3);
    assert_eq!(vocabulary.eos_token_id(), 3);
    assert_eq!(
        entries(&vocabulary),
        owned(&[
            ("", &[0]),
            ("apple", &[5]),
            ("apples", &[6]),
            ("fig", &[3]),
            ("pear", &[4]),
            ("zoo", &[3]),
            ("\u{e9}t\u{e9}", &[5]),
        ])
    );
}

#[test]
fn from_raw_vocab_refuses_an_empty_vocabulary() {
    let result = TokenVocabulary::from_raw_vocab(FxHashMap::default(), 0, None, None);
    assert_eq!(result.err(), Some(FsmError::InputInvalid));
}

#[test]
fn from_raw_vocab_keeps_raw_tokens_without_the_flag() {
    let mut raw = FxHashMap::default();
    raw.insert("<0x41>".to_string(), 1u32);
    raw.insert("A".to_string(), 2);
    raw.insert("\u{2581}b".to_string(), 3);
    let vocabulary = TokenVocabulary::from_raw_vocab(raw.clone(), 9, None, None).unwrap();
    assert_eq!(vocabulary.eos_token_id(), 9);
    assert_eq!(
        entries(&vocabulary),
        owned(&[("<0x41>", &[1]), ("A", &[2]), ("\u{2581}b", &[3])])
    );
    let same = TokenVocabulary::from_raw_vocab(raw, 9, None, Some(false)).unwrap();
    assert_eq!(entries(&same), entries(&vocabulary));
}

#[test]
fn from_raw_vocab_gathers_the_ids_of_tokens_that_read_the_same() {
    let mut raw = FxHashMap::default();
    raw.insert("<0x41>".to_string(), 1u32);
    raw.insert("A".to_string(), 2);
    raw.insert("\u{2581}b".to_string(), 3);
    raw.insert(" b".to_string(), 4);
    raw.insert("c".to_string(), 5);
    let vocabulary = TokenVocabulary::from_raw_vocab(raw, 9, None, Some(true)).unwrap();
    assert_eq!(
        entries(&vocabulary),
        owned(&[(" b", &[4, 3]), ("A", &[1, 2]), ("c", &[5])])
    );
}

#[test]
fn from_raw_vocab_leaves_special_tokens_out() {
    let mut raw = FxHashMap::default();
    raw.insert("<s>".to_string(), 0u32);
    raw.insert("a".to_string(), 1);
    raw.insert("</s>".to_string(), 2);
    let mut special = FxHashSet::default();
    special.insert("<s>".to_string());
    special.insert("</s>".to_string());
    special.insert("<pad>".to_string());
    let vocabulary = TokenVocabulary::from_raw_vocab(raw.clone(), 2, Some(special), None).unwrap();
    assert_eq!(entries(&vocabulary), owned(&[("a", &[1])]));
    let mut all = FxHashSet::default();
    for token in raw.keys() {
        all.insert(token.clone());
    }
    let nothing = TokenVocabulary::from_raw_vocab(raw, 2, Some(all), None).unwrap();
    assert!(nothing.is_empty());
}

#[test]
fn merge_adds_the_ids_of_the_other_vocabulary() {
    let mut first = TokenVocabulary::new(1);
    first.add_token("a".to_string(), vec![1]);
    first.add_token("b".to_string(), vec![2]);
    first.add_token("a".to_string(), vec![3]);
    let mut second = TokenVocabulary::new(2);
    second.add_token("b".to_string(), vec![4, 5]);
    second.add_token("c".to_string(), vec![6]);
    second.add_token("c".to_string(), vec![7]);
    let merged = first.merge(second);
    assert_eq!(merged.eos_token_id(), 1);
    assert_eq!(
        entries(&merged),
        owned(&[("a", &[3]), ("b", &[2, 4, 5]), ("c", &[6, 7])])
    );
}

#[test]
fn merge_with_an_empty_vocabulary() {
    let mut first = TokenVocabulary::new(1);
    first.add_token("a".to_string(), vec![1]);
    let merged = first.clone().merge(TokenVocabulary::new(5));
    assert_eq!(entries(&merged), owned(&[("a", &[1])]));
    let merged = TokenVocabulary::new(5).merge(first);
    assert_eq!(merged.eos_token_id(), 5);
    assert_eq!(entries(&merged), owned(&[("a", &[1])]));
}

#[test]
fn find_token_and_put_ids() {
    let mut tokens: Vec<String> = Vec::new();
    let mut values: Vec<Vec<u32>> = Vec::new();
    let mut index = new_text_map();
    put_ids(&mut tokens, &mut values, &mut index, "a".to_string(), vec![1], true);
    put_ids(&mut tokens, &mut values, &mut index, "b".to_string(), vec![2], false);
    assert_eq!(find_token(&tokens, &values, &"b".to_string()), Some(1));
    assert_eq!(find_token(&tokens, &values, &"c".to_string()), None);
    put_ids(&mut tokens, &mut values, &mut index, "b".to_string(), vec![3], true);
    put_ids(&mut tokens, &mut values, &mut index, "a".to_string(), vec![4], false);
    put_ids(&mut tokens, &mut values, &mut index, "c".to_string(), vec![5], true);
    assert_eq!(tokens, vec!["a", "b", "c"]);
    assert_eq!(values, vec![vec![4], vec![2, 3], vec![5]]);
    assert_eq!(index.len(), 3);
    assert_eq!(index.get("a"), Some(&0));
    assert_eq!(index.get("b"), Some(&1));
    assert_eq!(index.get("c"), Some(&2));
}

#[test]
fn a_large_raw_vocabulary_is_gathered() {
    let mut raw = FxHashMap::default();
    for id in 0..60_000u32 {
        raw.insert(format!("\u{2581}t{}", id), id);
        raw.insert(format!(" t{}", id), 100_000 + id);
    }
    let vocabulary = TokenVocabulary::from_raw_vocab(raw, 0, None, Some(true)).unwrap();
    assert_eq!(vocabulary.len(), 60_000);
    for (token, ids) in vocabulary.iter() {
        let id: u32 = token[2..].parse().unwrap();
        assert_eq!(ids, vec![100_000 + id, id]);
    }
    let merged = vocabulary.clone().merge(vocabulary);
    assert_eq!(merged.len(), 60_000);
    assert_eq!(merged.ids(0).len(), 4);
}
