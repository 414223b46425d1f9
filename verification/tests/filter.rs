use tyuo::engine::model::banned_dictionary::process_banned_tokens_list;
use tyuo::engine::model::banned_dictionary::BannedDictionary;
use tyuo::engine::model::banned_dictionary::BannedToken;
use tyuo::engine::model::database::Database;
use tyuo::engine::model::dictionary::Dictionary;

fn strings(all: &[&str]) -> Vec<String> {
    all.iter().map(|w| w.to_string()).collect()
}

#[test]
fn a_banned_token_knows_its_text_and_its_parts() {
    let token = BannedToken::new("ass".to_string(), Some(3));
    assert!(token.token_equal("ass"));
    assert!(!token.token_equal("grass"));
    assert!(!token.token_equal(""));
    assert!(token.token_contains("grass"));
    assert!(token.token_contains("ass"));
    assert!(!token.token_contains("as"));
    assert!(!token.token_contains("a s s"));
    assert_eq!(token.get_dictionary_id(), Some(3));
    assert_eq!(token.get_case_insensitive_representation(), "ass");
    let copy = token.clone();
    assert!(copy.token_equal("ass"));
    assert_eq!(copy.get_dictionary_id(), Some(3));
    assert_eq!(BannedToken::new("x".to_string(), None).get_dictionary_id(), None);
}

#[test]
fn a_text_is_banned_when_a_banned_text_is_a_part_of_it() {
    let mut database = Database::new();
    let generic = strings(&["spam"]);
    let mut filter = BannedDictionary::new(&database, &generic).unwrap();
    filter.ban(&mut database, &strings(&["ass"])).unwrap();
    assert!(filter.is_banned_by_token(&strings(&["grass"])));
    assert!(filter.is_banned_by_token(&strings(&["fine", "ass"])));
    assert!(filter.is_banned_by_token(&strings(&["spammer"])));
    assert!(!filter.is_banned_by_token(&strings(&["as", "sap", "spa"])));
    assert!(!filter.is_banned_by_token(&strings(&["ASS"])));
    assert!(!filter.is_banned_by_token(&Vec::new()));
    assert!(filter.is_text_banned("bypass"));
    assert!(!filter.is_text_banned(""));
}

#[test]
fn banning_lowers_the_case_and_skips_what_is_banned() {
    let mut database = Database::new();
    let generic: Vec<String> = Vec::new();
    let mut filter = BannedDictionary::new(&database, &generic).unwrap();
    let first = filter.ban(&mut database, &strings(&["Bad", "WORSE"])).unwrap();
    assert_eq!(first.len(), 2);
    assert!(first[0].token_equal("bad"));
    assert!(first[1].token_equal("worse"));
    let second = filter.ban(&mut database, &strings(&["BAD", "worst"])).unwrap();
    assert_eq!(second.len(), 1);
    assert!(second[0].token_equal("worst"));
    assert_eq!(database.banned_load_banned_tokens(None).unwrap().len(), 3);
    assert!(filter.is_text_banned("worst"));
}

#[test]
fn an_id_is_banned_when_a_banned_text_is_the_text_of_its_token() {
    let mut database = Database::new();
    let none: Vec<String> = Vec::new();
    let ids = Dictionary::new(&none).learn(&mut database, &strings(&["good", "bad", "badly"])).unwrap();
    let generic = strings(&["good"]);
    let mut filter = BannedDictionary::new(&database, &generic).unwrap();
    assert!(!filter.is_banned_by_id(&ids));
    let added = filter.ban(&mut database, &strings(&["bad", "unseen"])).unwrap();
    assert_eq!(added[0].get_dictionary_id(), Some(ids[1]));
    assert_eq!(added[1].get_dictionary_id(), None);
    assert!(filter.is_banned_by_id(&vec![ids[0], ids[1]]));
    assert!(filter.is_id_banned(ids[1]));
    assert!(!filter.is_banned_by_id(&vec![ids[0], ids[2]]));
    assert!(!filter.is_banned_by_id(&Vec::new()));

    let loaded = BannedDictionary::new(&database, &generic).unwrap();
    assert!(loaded.is_id_banned(ids[1]));
    assert!(!loaded.is_id_banned(ids[0]));
}

#[test]
fn lifting_a_ban_takes_the_exact_text_out_of_filter_and_store() {
    let mut database = Database::new();
    let none: Vec<String> = Vec::new();
    let ids = Dictionary::new(&none).learn(&mut database, &strings(&["bad"])).unwrap();
    let generic: Vec<String> = Vec::new();
    let mut filter = BannedDictionary::new(&database, &generic).unwrap();
    filter.ban(&mut database, &strings(&["bad", "worse"])).unwrap();
    filter.unban(&mut database, &strings(&["BAD", "wors"])).unwrap();
    assert!(filter.is_id_banned(ids[0]));
    assert_eq!(database.banned_load_banned_tokens(None).unwrap().len(), 2);
    filter.unban(&mut database, &strings(&["bad", "elsewhere"])).unwrap();
    assert!(!filter.is_id_banned(ids[0]));
    assert!(!filter.is_text_banned("bad"));
    assert!(filter.is_text_banned("worse"));
    let left = database.banned_load_banned_tokens(None).unwrap();
    assert_eq!(left.len(), 1);
    assert!(left[0].token_equal("worse"));
}

#[test]
fn a_list_is_read_line_by_line_in_lower_case_without_blanks() {
    let list = "Ass\n   \n\tFoo Bar \r\n\nÄrger\n  last";
    assert_eq!(process_banned_tokens_list(list), strings(&["ass", "foo bar", "ärger", "last"]));
    assert!(process_banned_tokens_list("").is_empty());
    assert!(process_banned_tokens_list(" \n\t\n").is_empty());
    assert_eq!(process_banned_tokens_list("one\n"), strings(&["one"]));
}
