use tyuo::engine::model::codec::decode_forms;
use tyuo::engine::model::codec::decode_transitions;
use tyuo::engine::model::codec::encode_forms;
use tyuo::engine::model::codec::encode_transitions;
use tyuo::engine::model::codec::forms_are_distinct;
use tyuo::engine::model::database::Database;
use tyuo::engine::model::database::DatabaseManager;
use tyuo::engine::model::database::Direction;
use tyuo::engine::model::dictionary::DictionaryToken;
use tyuo::engine::model::error::EngineError;
use tyuo::engine::model::model::Node;
use tyuo::engine::model::model::Transition;

fn strings(all: &[&str]) -> Vec<String> {
    all.iter().map(|w| w.to_string()).collect()
}

fn token(id: i32, occurrences: u32, text: &str, forms: &[(&str, u32)]) -> DictionaryToken {
    let forms = forms.iter().map(|(form, count)| (form.to_string(), *count)).collect();
    DictionaryToken::new(id, occurrences, text.to_string(), forms)
}

#[test]
fn triples_come_back_from_their_blob() {
    let triples = vec![(i32::MIN, 0, i64::MIN), (5, u32::MAX, i64::MAX), (-1, 7, 0)];
    let blob = encode_transitions(&triples).unwrap();
    assert_ne!(blob, b"[[-2147483648,0,-9223372036854775808],[5,4294967295,9223372036854775807],[-1,7,0]]".to_vec());
    assert_eq!(decode_transitions(&blob), Ok(triples));
    let none: Vec<(i32, u32, i64)> = Vec::new();
    assert_eq!(decode_transitions(&encode_transitions(&none).unwrap()), Ok(none));
}

#[test]
fn a_blob_that_is_no_zlib_stream_is_corrupted() {
    assert_eq!(decode_transitions(&b"[[1,2,3]]".to_vec()), Err(EngineError::Corrupted));
    assert_eq!(decode_transitions(&Vec::new()), Err(EngineError::Corrupted));
    assert_eq!(decode_forms(&vec![1, 2, 3]), Err(EngineError::Corrupted));
}

#[test]
fn a_blob_of_other_content_is_corrupted() {
    let forms = vec![("Word".to_string(), 3)];
    let blob = encode_forms(&forms).unwrap();
    assert_eq!(decode_transitions(&blob), Err(EngineError::Corrupted));
    let triples = encode_transitions(&vec![(1, 2, 3)]).unwrap();
    assert_eq!(decode_forms(&triples), Err(EngineError::Corrupted));
}

#[test]
fn forms_come_back_from_their_blob_unless_one_is_named_twice() {
    let forms = vec![("Word".to_string(), 3), ("wörd".to_string(), u32::MAX)];
    assert!(forms_are_distinct(&forms));
    assert_eq!(decode_forms(&encode_forms(&forms).unwrap()), Ok(forms));
    let twice = vec![("Word".to_string(), 3), ("word".to_string(), 1), ("Word".to_string(), 4)];
    assert!(!forms_are_distinct(&twice));
    assert_eq!(decode_forms(&encode_forms(&twice).unwrap()), Err(EngineError::Corrupted));
}

#[test]
fn storing_a_token_of_a_known_id_replaces_counts_and_keeps_the_text() {
    let mut database = Database::new();
    database.dictionary_set_words(&vec![token(1, 2, "one", &[("One", 2)])]).unwrap();
    database.dictionary_set_words(&vec![token(1, 5, "uno", &[("one", 4)]), token(2, 1, "two", &[])]).unwrap();
    let one = database.dictionary_get_word(1).unwrap();
    assert_eq!(one.get_case_insensitive_representation(), "one");
    assert_eq!(*one.get_case_insensitive_occurrences(), 5);
    assert_eq!(*one.get_capitalised_forms(), vec![("one".to_string(), 4)]);
    assert_eq!(database.dictionary_get_identifier(&"two".to_string()), Some(2));
    assert_eq!(database.dictionary_get_identifier(&"uno".to_string()), None);
    assert!(database.dictionary_has_identifier(2));
    assert!(!database.dictionary_has_identifier(3));
    assert!(database.dictionary_get_word(3).is_none());
}

#[test]
fn a_new_token_of_a_taken_text_is_refused_and_nothing_is_stored() {
    let mut database = Database::new();
    database.dictionary_set_words(&vec![token(1, 2, "one", &[])]).unwrap();
    let words = vec![token(5, 1, "five", &[]), token(2, 1, "one", &[])];
    assert_eq!(database.dictionary_set_words(&words), Err(EngineError::TransactionFailure));
    assert!(!database.dictionary_has_identifier(5));
    assert_eq!(database.dictionary_get_identifier(&"one".to_string()), Some(1));
}

#[test]
fn tokens_are_read_by_text_and_by_id_in_the_order_of_the_table() {
    let mut database = Database::new();
    let words = vec![token(3, 1, "c", &[]), token(1, 1, "a", &[]), token(2, 1, "b", &[])];
    database.dictionary_set_words(&words).unwrap();
    let by_text = database.dictionary_get_words_by_token(&strings(&["b", "c", "z"])).unwrap();
    assert_eq!(by_text.iter().map(|t| *t.get_id()).collect::<Vec<i32>>(), vec![3, 2]);
    let by_id = database.dictionary_get_words_by_id(&vec![2, 1, 9, 1]).unwrap();
    assert_eq!(by_id.iter().map(|t| *t.get_id()).collect::<Vec<i32>>(), vec![1, 2]);
    let sample = database.dictionary_get_random_words(2, 2).unwrap();
    assert_eq!(sample, vec![("b".to_string(), 2), ("c".to_string(), 3)]);
}

#[test]
fn scrubbing_empties_the_forms_of_the_named_tokens_only() {
    let mut database = Database::new();
    let words = vec![token(1, 1, "a", &[("A", 1)]), token(2, 1, "b", &[("B", 1)])];
    database.dictionary_set_words(&words).unwrap();
    database.dictionary_scrub_forms(&vec![2, 7]).unwrap();
    assert_eq!(database.dictionary_get_word(1).unwrap().get_capitalised_forms().len(), 1);
    assert!(database.dictionary_get_word(2).unwrap().get_capitalised_forms().is_empty());
}

#[test]
fn banned_texts_are_stored_once_and_joined_with_their_tokens() {
    let mut database = Database::new();
    database.dictionary_set_words(&vec![token(4, 1, "bad", &[])]).unwrap();
    let added = database.banned_ban_tokens(&strings(&["worse", "bad", "worse"])).unwrap();
    assert_eq!(added.len(), 2);
    assert!(added[0].token_equal("worse"));
    assert_eq!(added[0].get_dictionary_id(), None);
    assert!(added[1].token_equal("bad"));
    assert_eq!(added[1].get_dictionary_id(), Some(4));

    let again = database.banned_ban_tokens(&strings(&["bad", "worst"])).unwrap();
    assert_eq!(again.len(), 2);
    assert!(again[0].token_equal("bad"));
    assert!(again[1].token_equal("worst"));
    assert_eq!(database.banned_load_banned_tokens(None).unwrap().len(), 3);
    let some = database.banned_load_banned_tokens(Some(&strings(&["worst", "none"]))).unwrap();
    assert_eq!(some.len(), 1);

    database.banned_unban_tokens(&strings(&["worse", "none"])).unwrap();
    let left = database.banned_load_banned_tokens(None).unwrap();
    assert_eq!(left.len(), 2);
    assert!(left[0].token_equal("bad"));
    assert!(left[1].token_equal("worst"));
}

#[test]
fn blobs_are_stored_and_deleted_row_by_row() {
    let mut database = Database::new();
    database.dictionary_set_words(&vec![token(1, 1, "a", &[]), token(2, 1, "b", &[])]).unwrap();
    let changes = vec![(1, Some(vec![9, 9])), (2, Some(vec![8])), (1, None), (3, None), (2, Some(vec![7]))];
    database.model_put_blobs(Direction::Reverse, &changes).unwrap();
    assert_eq!(database.model_get_blob(Direction::Reverse, 1), None);
    assert_eq!(database.model_get_blob(Direction::Reverse, 2), Some(vec![7]));
    assert_eq!(database.model_get_blob(Direction::Forward, 2), None);
    assert!(database.model_get_transitions(Direction::Reverse, &vec![1, 2]).unwrap().is_empty());

    let refused = vec![(1, Some(vec![1])), (3, Some(vec![3]))];
    assert_eq!(database.model_put_blobs(Direction::Reverse, &refused), Err(EngineError::TransactionFailure));
    assert_eq!(database.model_get_blob(Direction::Reverse, 1), None);
}

#[test]
fn nodes_are_stored_in_their_direction_and_read_again() {
    let mut database = Database::new();
    database.dictionary_set_words(&vec![token(1, 1, "a", &[]), token(2, 1, "b", &[])]).unwrap();
    let nodes = vec![
        (1, Node::from_triples(&vec![(2, 3, 4), (1, 5, 6)])),
        (2, Node::from_triples(&vec![(1, 1, 1)])),
        (2, Node::empty()),
    ];
    database.model_set_transitions(Direction::Forward, &nodes).unwrap();
    let stored = database.model_get_transitions(Direction::Forward, &vec![2, 1, 3]).unwrap();
    assert_eq!(stored.len(), 1);
    let one = stored.get(&1).unwrap();
    assert_eq!(one.len(), 2);
    assert_eq!(one.get(2), Some(Transition::new(3, 4)));
    assert_eq!(one.get(1), Some(Transition::new(5, 6)));
    let copy = database.clone();
    assert_eq!(copy.model_get_blob(Direction::Forward, 1), database.model_get_blob(Direction::Forward, 1));
    assert_eq!(copy.dictionary_get_identifier(&"b".to_string()), Some(2));
}

#[test]
fn the_registry_makes_finds_and_removes_stores() {
    let mut manager = DatabaseManager::new("/home/bot/.tyuo/databases");
    assert_eq!(manager.resolve_path("whee"), "/home/bot/.tyuo/databases/whee.sqlite3");
    assert!(!manager.store_exists("whee"));
    assert_eq!(manager.load("whee"), Ok(0));
    assert_eq!(manager.load("other"), Ok(1));
    assert_eq!(manager.load("whee"), Ok(0));
    assert!(manager.store_exists("whee"));
    assert_eq!(manager.locate("other", 1), Some(1));
    assert_eq!(manager.locate("other", 0), None);
    assert_eq!(manager.locate("nobody", 0), None);
    assert_eq!(manager.install("whee", Database::new()), Err(EngineError::StoreUnavailable));

    manager.database_mut(1).banned_ban_tokens(&strings(&["x"])).unwrap();
    assert_eq!(manager.database(1).banned_load_banned_tokens(None).unwrap().len(), 1);
    assert_eq!(manager.database(0).banned_load_banned_tokens(None).unwrap().len(), 0);
    manager.replace(1, Database::new());
    assert_eq!(manager.database(1).banned_load_banned_tokens(None).unwrap().len(), 0);

    assert_eq!(manager.drop("whee"), Ok(()));
    assert_eq!(manager.drop("whee"), Err(EngineError::StoreUnavailable));
    assert_eq!(manager.locate("other", 1), Some(0));
    assert_eq!(manager.load("whee"), Ok(2));
}
