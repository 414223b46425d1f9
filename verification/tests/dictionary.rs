use tyuo::engine::model::database::Database;
use tyuo::engine::model::dictionary::Dictionary;
use tyuo::engine::model::dictionary::DictionaryToken;
use tyuo::engine::model::error::EngineError;

fn strings(all: &[&str]) -> Vec<String> {
    all.iter().map(|w| w.to_string()).collect()
}

fn forms(all: &[(&str, u32)]) -> Vec<(String, u32)> {
    all.iter().map(|(form, count)| (form.to_string(), *count)).collect()
}

#[test]
fn ids_start_at_the_lowest_and_go_up_by_one() {
    let mut database = Database::new();
    let none: Vec<String> = Vec::new();
    let dictionary = Dictionary::new(&none);
    assert_eq!(database.dictionary_get_next_identifier(), Ok(i32::MIN));
    let ids = dictionary.learn(&mut database, &strings(&["a", "b", "a", "c"])).unwrap();
    assert_eq!(ids, vec![i32::MIN, i32::MIN + 1, i32::MIN, i32::MIN + 2]);
    assert_eq!(database.dictionary_get_next_identifier(), Ok(i32::MIN + 3));
    let more = dictionary.learn(&mut database, &strings(&["d", "B"])).unwrap();
    assert_eq!(more, vec![i32::MIN + 3, i32::MIN + 1]);
}

#[test]
fn the_next_id_is_one_above_the_highest_in_use() {
    let mut database = Database::new();
    let tokens = vec![
        DictionaryToken::new(7, 1, "seven".to_string(), Vec::new()),
        DictionaryToken::new(-3, 1, "minus".to_string(), Vec::new()),
    ];
    database.dictionary_set_words(&tokens).unwrap();
    assert_eq!(database.dictionary_get_next_identifier(), Ok(8));
    let none: Vec<String> = Vec::new();
    let ids = Dictionary::new(&none).learn(&mut database, &strings(&["new"])).unwrap();
    assert_eq!(ids, vec![8]);
}

#[test]
fn no_token_can_be_added_above_the_highest_id() {
    let mut database = Database::new();
    let tokens = vec![DictionaryToken::new(i32::MAX, 1, "last".to_string(), Vec::new())];
    database.dictionary_set_words(&tokens).unwrap();
    assert_eq!(database.dictionary_get_next_identifier(), Err(EngineError::TransactionFailure));
    let none: Vec<String> = Vec::new();
    let dictionary = Dictionary::new(&none);
    assert_eq!(
        dictionary.learn(&mut database, &strings(&["last", "more"])),
        Err(EngineError::TransactionFailure)
    );
    let last = database.dictionary_get_word(i32::MAX).unwrap();
    assert_eq!(*last.get_case_insensitive_occurrences(), 1);
    assert_eq!(dictionary.learn(&mut database, &strings(&["Last"])), Ok(vec![i32::MAX]));
}

#[test]
fn learning_counts_the_token_and_the_capitalisation() {
    let mut database = Database::new();
    let none: Vec<String> = Vec::new();
    let dictionary = Dictionary::new(&none);
    dictionary.learn(&mut database, &strings(&["Hello", "hello", "Hello", "HELLO"])).unwrap();
    let found = dictionary.lookup_by_text(&database, &strings(&["hELLO", "absent"])).unwrap();
    assert_eq!(found.len(), 1);
    let token = &found[0];
    assert_eq!(*token.get_id(), i32::MIN);
    assert_eq!(token.get_case_insensitive_representation(), "hello");
    assert_eq!(*token.get_case_insensitive_occurrences(), 4);
    assert_eq!(*token.get_capitalised_forms(), forms(&[("Hello", 2), ("hello", 1), ("HELLO", 1)]));
    assert_eq!(dictionary.render(&database, i32::MIN, true), Ok("Hello".to_string()));
}

#[test]
fn a_token_is_written_in_the_form_seen_most_often() {
    let token = DictionaryToken::new(1, 9, "word".to_string(), forms(&[("word", 2), ("Word", 5), ("WORD", 2)]));
    assert_eq!(token.represent(false), "Word");
    assert_eq!(token.represent(true), "Word");
}

#[test]
fn of_forms_seen_equally_often_the_first_in_order_is_written() {
    let token = DictionaryToken::new(1, 6, "word".to_string(), forms(&[("word", 3), ("Word", 3), ("WORD", 3), ("Wo", 1)]));
    assert_eq!(token.represent(false), "WORD");
    let prefix = DictionaryToken::new(1, 2, "ab".to_string(), forms(&[("ab", 1), ("a", 1)]));
    assert_eq!(prefix.represent(true), "a");
}

#[test]
fn a_token_without_forms_is_written_in_lower_case() {
    let mut token = DictionaryToken::new(1, 6, "word".to_string(), forms(&[("Word", 3)]));
    token.scrub();
    assert!(token.get_capitalised_forms().is_empty());
    assert_eq!(token.represent(true), "word");
    assert_eq!(*token.get_case_insensitive_occurrences(), 6);
}

#[test]
fn observing_a_token_counts_up_to_the_highest_count_and_no_further() {
    let mut token = DictionaryToken::new(1, u32::MAX - 1, "w".to_string(), forms(&[("W", u32::MAX)]));
    token.observe("W");
    token.observe("w");
    token.observe("w");
    assert_eq!(*token.get_case_insensitive_occurrences(), u32::MAX);
    assert_eq!(*token.get_capitalised_forms(), forms(&[("W", u32::MAX), ("w", 2)]));
}

#[test]
fn looking_up_an_id_that_is_not_there_is_not_found() {
    let mut database = Database::new();
    let none: Vec<String> = Vec::new();
    let dictionary = Dictionary::new(&none);
    dictionary.learn(&mut database, &strings(&["a", "b"])).unwrap();
    let found = dictionary.lookup_by_id(&database, &vec![i32::MIN + 1, i32::MIN]).unwrap();
    assert_eq!(found.len(), 2);
    assert_eq!(*found[0].get_id(), i32::MIN);
    assert_eq!(
        dictionary.lookup_by_id(&database, &vec![i32::MIN, 5]).err(),
        Some(EngineError::NotFound)
    );
    assert_eq!(dictionary.render(&database, 5, false), Err(EngineError::NotFound));
}

#[test]
fn tokens_are_found_by_a_part_of_their_text() {
    let mut database = Database::new();
    let none: Vec<String> = Vec::new();
    let dictionary = Dictionary::new(&none);
    dictionary.learn(&mut database, &strings(&["grass", "green", "assess", "tree"])).unwrap();
    let found = dictionary.enumerate_by_substring(&database, &strings(&["ass", "tre"])).unwrap();
    assert_eq!(
        found,
        vec![
            ("grass".to_string(), i32::MIN),
            ("assess".to_string(), i32::MIN + 2),
            ("tree".to_string(), i32::MIN + 3),
        ]
    );
    assert!(dictionary.enumerate_by_substring(&database, &strings(&["ASS"])).unwrap().is_empty());
    assert!(dictionary.enumerate_by_substring(&database, &Vec::new()).unwrap().is_empty());
}

#[test]
fn a_sample_takes_tokens_in_a_row_from_where_the_seed_points() {
    let mut database = Database::new();
    let none: Vec<String> = Vec::new();
    let dictionary = Dictionary::new(&none);
    assert!(dictionary.sample_random(&database, 3, 1).unwrap().is_empty());
    dictionary.learn(&mut database, &strings(&["a", "b", "c"])).unwrap();
    let two = dictionary.sample_random(&database, 2, 4).unwrap();
    assert_eq!(two, vec![("b".to_string(), i32::MIN + 1), ("c".to_string(), i32::MIN + 2)]);
    let all = dictionary.sample_random(&database, 5, 5).unwrap();
    assert_eq!(
        all,
        vec![
            ("c".to_string(), i32::MIN + 2),
            ("a".to_string(), i32::MIN),
            ("b".to_string(), i32::MIN + 1),
        ]
    );
    assert!(dictionary.sample_random(&database, 0, 0).unwrap().is_empty());
}

#[test]
fn the_tokens_that_are_never_keywords_are_known() {
    let never = strings(&["the", "a"]);
    let dictionary = Dictionary::new(&never);
    assert!(dictionary.is_non_keyword(&"the".to_string()));
    assert!(!dictionary.is_non_keyword(&"there".to_string()));
}
