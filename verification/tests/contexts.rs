use tyuo::engine;
use tyuo::engine::model::database::Direction;
use tyuo::engine::model::error::EngineError;
use tyuo::engine::model::model::Transition;

fn texts(words: &[&str]) -> Vec<String> {
    words.iter().map(|w| w.to_string()).collect()
}

const HELLO: i32 = i32::MIN;
const WORLD: i32 = i32::MIN + 1;

#[test]
fn learning_two_texts_makes_two_tokens_and_one_edge_each_way() {
    let mut engine = engine::new("/var/db", "", "");
    let context = engine.get_context("a").unwrap();
    context.learn_at(&mut engine, &texts(&["hello", "world"]), true, 1000).unwrap();
    let database = engine.database(&context).unwrap();

    let all = database.dictionary_enumerate_words_by_substring(&texts(&[""])).unwrap();
    assert_eq!(all, vec![("hello".to_string(), HELLO), ("world".to_string(), WORLD)]);

    let ids = vec![HELLO, WORLD];
    let forward = database.model_get_transitions(Direction::Forward, &ids).unwrap();
    assert_eq!(forward.len(), 1);
    let hello = forward.get(&HELLO).unwrap();
    assert_eq!(hello.len(), 1);
    assert_eq!(hello.get(WORLD), Some(Transition::new(1, 1000)));

    let reverse = database.model_get_transitions(Direction::Reverse, &ids).unwrap();
    assert_eq!(reverse.len(), 1);
    let world = reverse.get(&WORLD).unwrap();
    assert_eq!(world.len(), 1);
    assert_eq!(world.get(HELLO), Some(Transition::new(1, 1000)));
}

#[test]
fn learning_again_counts_the_edge_twice_and_moves_its_time() {
    let mut engine = engine::new("/var/db", "", "");
    let context = engine.get_context("a").unwrap();
    context.learn_at(&mut engine, &texts(&["hello", "world"]), true, 1000).unwrap();
    context.learn_at(&mut engine, &texts(&["hello", "world"]), true, 2000).unwrap();
    let database = engine.database(&context).unwrap();

    let all = database.dictionary_enumerate_words_by_substring(&texts(&[""])).unwrap();
    assert_eq!(all.len(), 2);
    let tokens = database.dictionary_get_words_by_id(&vec![HELLO]).unwrap();
    assert_eq!(*tokens[0].get_case_insensitive_occurrences(), 2);

    let forward = database.model_get_transitions(Direction::Forward, &vec![HELLO]).unwrap();
    assert_eq!(forward.get(&HELLO).unwrap().get(WORLD), Some(Transition::new(2, 2000)));
    let reverse = database.model_get_transitions(Direction::Reverse, &vec![WORLD]).unwrap();
    assert_eq!(reverse.get(&WORLD).unwrap().get(HELLO), Some(Transition::new(2, 2000)));
}

#[test]
fn banning_a_token_deletes_its_nodes_and_the_edges_to_it() {
    let mut engine = engine::new("/var/db", "", "");
    let context = engine.get_context("a").unwrap();
    context.learn_at(&mut engine, &texts(&["hello", "world"]), true, 1000).unwrap();
    let added = context.ban(&mut engine, &texts(&["world"])).unwrap();
    assert_eq!(added.len(), 1);
    assert!(added[0].token_equal("world"));
    assert_eq!(added[0].get_dictionary_id(), Some(WORLD));

    let database = engine.database(&context).unwrap();
    let ids = vec![HELLO, WORLD];
    assert!(database.model_get_transitions(Direction::Forward, &ids).unwrap().is_empty());
    assert!(database.model_get_transitions(Direction::Reverse, &ids).unwrap().is_empty());
    assert_eq!(database.model_get_blob(Direction::Forward, HELLO), None);
    assert_eq!(database.model_get_blob(Direction::Reverse, WORLD), None);

    let world = database.dictionary_get_word(WORLD).unwrap();
    assert!(world.get_capitalised_forms().is_empty());
    assert_eq!(world.represent(false), "world");
    let hello = database.dictionary_get_word(HELLO).unwrap();
    assert_eq!(hello.get_capitalised_forms().len(), 1);
}

#[test]
fn banning_keeps_the_other_edges_of_a_neighbour() {
    let mut engine = engine::new("/var/db", "", "");
    let context = engine.get_context("a").unwrap();
    context.learn_at(&mut engine, &texts(&["hello", "world"]), true, 1000).unwrap();
    context.learn_at(&mut engine, &texts(&["hello", "there"]), true, 1000).unwrap();
    let there = WORLD + 1;
    context.ban(&mut engine, &texts(&["WORLD"])).unwrap();

    let database = engine.database(&context).unwrap();
    let forward = database.model_get_transitions(Direction::Forward, &vec![HELLO]).unwrap();
    let hello = forward.get(&HELLO).unwrap();
    assert_eq!(hello.len(), 1);
    assert_eq!(hello.get(there), Some(Transition::new(1, 1000)));
    assert_eq!(hello.get(WORLD), None);
}

#[test]
fn a_banned_text_is_not_learned() {
    let mut engine = engine::new("/var/db", "", "ass\n");
    let context = engine.get_context("a").unwrap();
    context.learn_at(&mut engine, &texts(&["green", "Grass", "grows"]), true, 5).unwrap();
    let database = engine.database(&context).unwrap();
    let all = database.dictionary_enumerate_words_by_substring(&texts(&[""])).unwrap();
    assert_eq!(all, vec![("green".to_string(), HELLO), ("grows".to_string(), WORLD)]);
    let forward = database.model_get_transitions(Direction::Forward, &vec![HELLO]).unwrap();
    assert_eq!(forward.get(&HELLO).unwrap().get(WORLD), Some(Transition::new(1, 5)));
}

#[test]
fn texts_that_are_not_learnable_change_nothing() {
    let mut engine = engine::new("/var/db", "", "");
    let context = engine.get_context("a").unwrap();
    context.learn_at(&mut engine, &texts(&["hello", "world"]), false, 1000).unwrap();
    let database = engine.database(&context).unwrap();
    assert!(database.dictionary_enumerate_words_by_substring(&texts(&[""])).unwrap().is_empty());
}

#[test]
fn a_context_is_made_empty_and_made_anew_after_a_drop() {
    let mut engine = engine::prepare("/var/db", "");
    assert!(!engine.context_exists("x"));
    let first = engine.get_context("x").unwrap();
    assert!(engine.context_exists("x"));
    assert!(engine.database(&first).unwrap().dictionary_enumerate_words_by_substring(
        &texts(&[""])).unwrap().is_empty());
    first.learn_at(&mut engine, &texts(&["hello", "world"]), true, 1).unwrap();
    assert_eq!(engine.get_context("x").unwrap().get_serial(), first.get_serial());

    engine.drop_context("x").unwrap();
    assert!(!engine.context_exists("x"));
    let second = engine.get_context("x").unwrap();
    assert_ne!(second.get_serial(), first.get_serial());
    assert!(engine.database(&second).unwrap().dictionary_enumerate_words_by_substring(
        &texts(&[""])).unwrap().is_empty());
}

#[test]
fn a_handle_on_a_dropped_context_is_refused() {
    let mut engine = engine::prepare("/var/db", "");
    let context = engine.get_context("x").unwrap();
    engine.drop_context("x").unwrap();
    engine.get_context("x").unwrap();
    assert_eq!(
        context.learn_at(&mut engine, &texts(&["hello"]), true, 1),
        Err(EngineError::ContextDropped)
    );
    assert_eq!(context.ban(&mut engine, &texts(&["hello"])).err(), Some(EngineError::ContextDropped));
    assert_eq!(context.unban(&mut engine, &texts(&["hello"])), Err(EngineError::ContextDropped));
    assert_eq!(
        context.generate_at(&engine, &texts(&["hello"]), 1, 0, &vec![0], &vec![0]),
        Err(EngineError::ContextDropped)
    );
    assert!(matches!(engine.database(&context), Err(EngineError::ContextDropped)));
}

#[test]
fn dropping_what_is_not_there_is_refused() {
    let mut engine = engine::prepare("/var/db", "");
    assert_eq!(engine.drop_context("nobody"), Err(EngineError::StoreUnavailable));
}

#[test]
fn contexts_do_not_share_what_they_learn() {
    let mut engine = engine::prepare("/var/db", "");
    let one = engine.get_context("one").unwrap();
    let two = engine.get_context("two").unwrap();
    one.learn_at(&mut engine, &texts(&["hello", "world"]), true, 1).unwrap();
    assert_eq!(engine.database(&one).unwrap().dictionary_get_next_identifier(), Ok(WORLD + 1));
    assert_eq!(engine.database(&two).unwrap().dictionary_get_next_identifier(), Ok(i32::MIN));
}

#[test]
fn learning_by_the_clock_stamps_a_time_of_today() {
    let mut engine = engine::prepare("/var/db", "");
    let context = engine.get_context("x").unwrap();
    context.learn(&mut engine, &texts(&["hello", "world"]), true).unwrap();
    let database = engine.database(&context).unwrap();
    let forward = database.model_get_transitions(Direction::Forward, &vec![HELLO]).unwrap();
    let edge = forward.get(&HELLO).unwrap().get(WORLD).unwrap();
    assert_eq!(*edge.get_occurrences(), 1);
    assert!(*edge.get_last_observed() > 1_600_000_000);
}

#[test]
fn unbanning_lets_a_text_be_learned_again_but_brings_nothing_back() {
    let mut engine = engine::prepare("/var/db", "");
    let context = engine.get_context("x").unwrap();
    context.learn_at(&mut engine, &texts(&["hello", "world"]), true, 1).unwrap();
    context.ban(&mut engine, &texts(&["world"])).unwrap();
    context.learn_at(&mut engine, &texts(&["hello", "world"]), true, 2).unwrap();
    {
        let database = engine.database(&context).unwrap();
        assert!(database.model_get_transitions(Direction::Forward, &vec![HELLO]).unwrap().is_empty());
    }
    context.unban(&mut engine, &texts(&["world"])).unwrap();
    {
        let database = engine.database(&context).unwrap();
        assert!(database.banned_load_banned_tokens(None).unwrap().is_empty());
        assert!(database.model_get_transitions(Direction::Forward, &vec![HELLO]).unwrap().is_empty());
    }
    context.learn_at(&mut engine, &texts(&["hello", "world"]), true, 3).unwrap();
    let database = engine.database(&context).unwrap();
    let forward = database.model_get_transitions(Direction::Forward, &vec![HELLO]).unwrap();
    assert_eq!(forward.get(&HELLO).unwrap().get(WORLD), Some(Transition::new(1, 3)));
}
