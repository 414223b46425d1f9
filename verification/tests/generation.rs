use tyuo::engine;
use tyuo::engine::model::banned_dictionary::BannedDictionary;
use tyuo::engine::model::database::Database;
use tyuo::engine::model::database::Direction;
use tyuo::engine::model::dictionary::Dictionary;
use tyuo::engine::model::error::EngineError;
use tyuo::engine::model::generation::generate;
use tyuo::engine::model::generation::keywords;
use tyuo::engine::model::generation::pick;
use tyuo::engine::model::generation::render_all;
use tyuo::engine::model::generation::sentence;
use tyuo::engine::model::generation::walk;
use tyuo::engine::model::generation::MAX_WALK_STEPS;
use tyuo::engine::model::model::Node;
use tyuo::engine::model::orchestration::learn;

fn strings(all: &[&str]) -> Vec<String> {
    all.iter().map(|w| w.to_string()).collect()
}

const FIRST: i32 = i32::MIN;

#[test]
fn a_roll_picks_in_proportion_to_the_occurrences() {
    let triples = vec![(1, 1, 0), (2, 3, 0), (3, 0, 0), (4, 2, 0)];
    assert_eq!(pick(&triples, 0), Some(1));
    assert_eq!(pick(&triples, 1), Some(2));
    assert_eq!(pick(&triples, 3), Some(2));
    assert_eq!(pick(&triples, 4), Some(4));
    assert_eq!(pick(&triples, 5), Some(4));
    assert_eq!(pick(&triples, 6), Some(1));
    assert_eq!(pick(&triples, u64::MAX), Some(2));
    assert_eq!(pick(&vec![(1, u32::MAX, 0), (2, u32::MAX, 0)], u32::MAX as u64), Some(2));
}

#[test]
fn nothing_is_picked_where_nothing_has_occurrences() {
    assert_eq!(pick(&Vec::new(), 3), None);
    assert_eq!(pick(&vec![(1, 0, 0), (2, 0, 0)], 3), None);
}

#[test]
fn a_walk_follows_the_only_way_and_ends_where_none_leads_on() {
    let mut database = Database::new();
    let none: Vec<String> = Vec::new();
    let dictionary = Dictionary::new(&none);
    learn(&mut database, &dictionary, &none, &strings(&["a", "b", "c"]), true, 10).unwrap();
    let filter = BannedDictionary::new(&database, &none).unwrap();
    let rolls = vec![5, 6, 7, 8];
    assert_eq!(walk(&database, Direction::Forward, &filter, FIRST, 10, &rolls), vec![FIRST + 1, FIRST + 2]);
    assert_eq!(walk(&database, Direction::Reverse, &filter, FIRST + 2, 10, &rolls), vec![FIRST + 1, FIRST]);
    assert!(walk(&database, Direction::Reverse, &filter, FIRST, 10, &rolls).is_empty());
    assert_eq!(walk(&database, Direction::Forward, &filter, FIRST, 10, &vec![1]), vec![FIRST + 1]);
    assert!(walk(&database, Direction::Forward, &filter, FIRST, 10, &Vec::new()).is_empty());
    assert!(walk(&database, Direction::Forward, &filter, 77, 10, &rolls).is_empty());
    assert_eq!(
        sentence(&database, &filter, FIRST + 1, 10, &rolls, &rolls),
        vec![FIRST, FIRST + 1, FIRST + 2]
    );
}

#[test]
fn a_walk_in_a_circle_ends_after_the_maximum_of_steps() {
    let mut database = Database::new();
    let none: Vec<String> = Vec::new();
    let dictionary = Dictionary::new(&none);
    learn(&mut database, &dictionary, &none, &strings(&["a", "b", "a"]), true, 10).unwrap();
    let filter = BannedDictionary::new(&database, &none).unwrap();
    let rolls = vec![0; 100];
    let path = walk(&database, Direction::Forward, &filter, FIRST, 10, &rolls);
    assert_eq!(path.len(), MAX_WALK_STEPS);
    assert_eq!(path[0], FIRST + 1);
    assert_eq!(path[1], FIRST);
    assert_eq!(path[31], FIRST);
}

#[test]
fn a_walk_weighs_its_ways_by_the_roll() {
    let mut database = Database::new();
    let none: Vec<String> = Vec::new();
    let dictionary = Dictionary::new(&none);
    let ids = dictionary.learn(&mut database, &strings(&["a", "b"])).unwrap();
    let node = Node::from_triples(&vec![(ids[1], 0, 0), (ids[0], 4, 0)]);
    database.model_set_transitions(Direction::Forward, &vec![(ids[0], node)]).unwrap();
    let filter = BannedDictionary::new(&database, &none).unwrap();
    for roll in 0..8 {
        assert_eq!(walk(&database, Direction::Forward, &filter, ids[0], 0, &vec![roll]), vec![ids[0]]);
    }
}

#[test]
fn a_text_is_said_around_the_keyword_of_the_seed() {
    let mut engine = engine::new("/var/db", "", "");
    let context = engine.get_context("a").unwrap();
    context.learn_at(&mut engine, &strings(&["Hello", "big", "World"]), true, 10).unwrap();
    let rolls = vec![0; 8];
    assert_eq!(
        context.generate_at(&engine, &strings(&["BIG"]), 10, 0, &rolls, &rolls),
        Ok(Some("Hello big World".to_string()))
    );
    assert_eq!(
        context.generate_at(&engine, &strings(&["world", "hello"]), 10, 0, &rolls, &rolls),
        Ok(Some("Hello big World Hello big World".to_string()))
    );
    assert_eq!(
        context.generate_at(&engine, &strings(&["big"]), 10, 0, &Vec::new(), &rolls),
        Ok(Some("Hello big".to_string()))
    );
    let aged = context.generate(&engine, &strings(&["big"]), 0, &rolls, &rolls);
    assert_eq!(aged, Ok(Some("big".to_string())));
}

#[test]
fn what_was_learned_by_the_clock_is_said_by_the_clock() {
    let mut engine = engine::new("/var/db", "", "");
    let context = engine.get_context("a").unwrap();
    context.learn(&mut engine, &strings(&["Hello", "big", "World"]), true).unwrap();
    let rolls = vec![0; 8];
    let said = context.generate(&engine, &strings(&["big"]), 0, &rolls, &rolls);
    assert_eq!(said, Ok(Some("Hello big World".to_string())));
}

#[test]
fn without_a_keyword_in_the_seed_a_token_is_drawn() {
    let mut engine = engine::new("/var/db", "hello\n", "");
    let context = engine.get_context("a").unwrap();
    context.learn_at(&mut engine, &strings(&["hello", "world"]), true, 10).unwrap();
    let rolls = vec![0; 8];
    assert_eq!(
        context.generate_at(&engine, &strings(&["hello"]), 10, 1, &rolls, &rolls),
        Ok(Some("hello world".to_string()))
    );
    assert_eq!(
        context.generate_at(&engine, &strings(&["unknown"]), 10, 0, &Vec::new(), &Vec::new()),
        Ok(Some("hello".to_string()))
    );
}

#[test]
fn a_banned_token_is_neither_keyword_nor_said() {
    let mut engine = engine::new("/var/db", "", "");
    let context = engine.get_context("a").unwrap();
    context.learn_at(&mut engine, &strings(&["hello", "world"]), true, 10).unwrap();
    context.ban(&mut engine, &strings(&["world"])).unwrap();
    let rolls = vec![0; 8];
    assert_eq!(
        context.generate_at(&engine, &strings(&["world"]), 10, 1, &rolls, &rolls),
        Ok(Some("hello".to_string()))
    );
}

#[test]
fn there_is_nothing_to_say_without_keywords() {
    let mut engine = engine::new("/var/db", "", "");
    let context = engine.get_context("a").unwrap();
    let rolls = vec![0; 8];
    assert_eq!(context.generate_at(&engine, &strings(&["hello"]), 10, 0, &rolls, &rolls), Ok(None));
    context.learn_at(&mut engine, &strings(&["hello"]), true, 10).unwrap();
    context.ban(&mut engine, &strings(&["hello"])).unwrap();
    assert_eq!(context.generate_at(&engine, &strings(&["hello"]), 10, 0, &rolls, &rolls), Ok(None));
}

#[test]
fn keywords_come_from_the_seed_first_and_from_the_draw_else() {
    let mut database = Database::new();
    let never = strings(&["the"]);
    let dictionary = Dictionary::new(&never);
    let generic = strings(&["spam"]);
    dictionary.learn(&mut database, &strings(&["the", "spammer", "cat", "dog"])).unwrap();
    let filter = BannedDictionary::new(&database, &generic).unwrap();
    assert_eq!(
        keywords(&database, &dictionary, &filter, &strings(&["Dog", "the", "CAT", "spammer"]), 0),
        vec![FIRST + 2, FIRST + 3]
    );
    assert_eq!(keywords(&database, &dictionary, &filter, &strings(&["the"]), 2), vec![FIRST + 2]);
    assert_eq!(keywords(&database, &dictionary, &filter, &strings(&["the"]), 0), vec![FIRST]);
}

#[test]
fn a_token_of_the_graph_that_the_dictionary_lacks_is_not_found() {
    let mut database = Database::new();
    let none: Vec<String> = Vec::new();
    let dictionary = Dictionary::new(&none);
    let ids = dictionary.learn(&mut database, &strings(&["a"])).unwrap();
    let node = Node::from_triples(&vec![(99, 1, 0)]);
    database.model_set_transitions(Direction::Forward, &vec![(ids[0], node)]).unwrap();
    assert_eq!(
        generate(&database, &dictionary, &none, &strings(&["a"]), 0, 0, &vec![0], &vec![0]),
        Err(EngineError::NotFound)
    );
    assert_eq!(render_all(&database, &dictionary, &vec![ids[0], 99]), Err(EngineError::NotFound));
    assert_eq!(render_all(&database, &dictionary, &vec![ids[0], ids[0]]), Ok("a a".to_string()));
    assert_eq!(render_all(&database, &dictionary, &Vec::new()), Ok(String::new()));
}
