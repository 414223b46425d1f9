use std::collections::HashMap;
use tyuo::engine::model::banned_dictionary::BannedDictionary;
use tyuo::engine::model::database::Database;
use tyuo::engine::model::database::Direction;
use tyuo::engine::model::dictionary::Dictionary;
use tyuo::engine::model::error::EngineError;
use tyuo::engine::model::model::Node;
use tyuo::engine::model::model::Statistics;
use tyuo::engine::model::model::Transition;
use tyuo::engine::model::model::DECIMATION_THRESHOLD;
use tyuo::engine::model::model::MAX_TRANSITION_AGE;

fn words(all: &[&str]) -> Vec<String> {
    all.iter().map(|w| w.to_string()).collect()
}

fn store_with(all: &[&str]) -> (Database, Vec<i32>) {
    let mut database = Database::new();
    let none: Vec<String> = Vec::new();
    let ids = Dictionary::new(&none).learn(&mut database, &words(all)).unwrap();
    (database, ids)
}

#[test]
fn a_transition_counts_and_stamps() {
    let mut transition = Transition::new(1, 10);
    assert_eq!(transition.increment_at(20), 2);
    assert_eq!(*transition.get_occurrences(), 2);
    assert_eq!(*transition.get_last_observed(), 20);
}

#[test]
fn a_transition_stops_counting_at_the_highest_count() {
    let mut transition = Transition::new(u32::MAX - 1, 0);
    assert_eq!(transition.increment_at(1), u32::MAX);
    assert_eq!(transition.increment_at(2), u32::MAX);
    assert_eq!(transition, Transition::new(u32::MAX, 2));
}

#[test]
fn a_transition_counts_by_the_clock() {
    let mut transition = Transition::new(7, 0);
    assert_eq!(transition.increment(), 8);
    assert!(*transition.get_last_observed() > 1_600_000_000);
}

#[test]
fn a_transition_expires_after_the_maximum_age() {
    let transition = Transition::new(1, 100);
    assert!(!transition.is_expired(100));
    assert!(!transition.is_expired(100 + MAX_TRANSITION_AGE));
    assert!(transition.is_expired(101 + MAX_TRANSITION_AGE));
    assert!(!Transition::new(1, -5).is_expired(MAX_TRANSITION_AGE - 5));
    assert!(Transition::new(1, -5).is_expired(MAX_TRANSITION_AGE - 4));
    assert!(Transition::new(1, i64::MIN).is_expired(i64::MAX));
    assert!(!Transition::new(1, i64::MAX).is_expired(i64::MIN));
}

#[test]
fn a_node_records_new_and_known_targets() {
    let mut node = Node::new(HashMap::new());
    assert!(node.is_empty());
    assert_eq!(node.increment_transition_at(&5, 10), 1);
    assert_eq!(node.increment_transition_at(&5, 11), 2);
    assert_eq!(node.increment_transition_at(&6, 12), 1);
    assert_eq!(node.len(), 2);
    assert_eq!(node.get(5), Some(Transition::new(2, 11)));
    assert_eq!(node.get(6), Some(Transition::new(1, 12)));
    assert_eq!(node.get(7), None);
    assert_eq!(node.increment_transition(&5), 3);
    node.remove_transition(5);
    assert_eq!(node.get(5), None);
    assert_eq!(node.len(), 1);
}

#[test]
fn decimation_divides_by_three_and_drops_what_reaches_zero() {
    let mut transitions = HashMap::new();
    for target in 0..=100 {
        transitions.insert(target, Transition::new(target as u32, 1000 + target as i64));
    }
    let mut node = Node::new(transitions);
    assert_eq!(node.len(), DECIMATION_THRESHOLD + 1);
    node.decimate();
    assert_eq!(node.len(), 98);
    for target in 0..3 {
        assert_eq!(node.get(target), None);
    }
    for target in 3..=100 {
        assert_eq!(node.get(target), Some(Transition::new(target as u32 / 3, 1000 + target as i64)));
    }
}

#[test]
fn decimation_spares_a_node_within_the_threshold() {
    let mut transitions = HashMap::new();
    for target in 0..100 {
        transitions.insert(target, Transition::new(1, 0));
    }
    let mut node = Node::new(transitions);
    node.decimate();
    assert_eq!(node.len(), 100);
    assert_eq!(node.get(0), Some(Transition::new(1, 0)));
    Statistics::new(Direction::Forward).decimate(&mut node);
    assert_eq!(node.len(), 100);
}

#[test]
fn a_node_lists_its_transitions_and_is_made_of_them_again() {
    let node = Node::from_triples(&vec![(1, 2, 3), (4, 5, 6), (1, 7, 8)]);
    assert_eq!(node.len(), 2);
    assert_eq!(node.get(1), Some(Transition::new(7, 8)));
    let mut triples = node.triples();
    triples.sort();
    assert_eq!(triples, vec![(1, 7, 8), (4, 5, 6)]);
}

#[test]
fn loading_hides_a_transition_that_is_too_old_though_it_is_stored() {
    let (mut database, ids) = store_with(&["a", "b"]);
    let generic: Vec<String> = Vec::new();
    let filter = BannedDictionary::new(&database, &generic).unwrap();
    let graph = Statistics::new(Direction::Forward);
    graph.record(&mut database, &filter, ids[0], ids[1], 50).unwrap();

    let wanted = vec![ids[0]];
    let fresh = graph.get_nodes(&database, &filter, &wanted, 50 + MAX_TRANSITION_AGE).unwrap();
    assert_eq!(fresh.get(&ids[0]).unwrap().get(ids[1]), Some(Transition::new(1, 50)));

    let stale = graph.get_nodes(&database, &filter, &wanted, 51 + MAX_TRANSITION_AGE).unwrap();
    assert!(stale.get(&ids[0]).unwrap().is_empty());
    let stored = database.model_get_transitions(Direction::Forward, &wanted).unwrap();
    assert_eq!(stored.get(&ids[0]).unwrap().get(ids[1]), Some(Transition::new(1, 50)));
}

#[test]
fn loading_hides_a_transition_to_a_banned_token() {
    let (mut database, ids) = store_with(&["a", "b", "c"]);
    let generic: Vec<String> = Vec::new();
    let graph = Statistics::new(Direction::Forward);
    {
        let filter = BannedDictionary::new(&database, &generic).unwrap();
        graph.observe(&mut database, &filter, &vec![(ids[0], ids[1]), (ids[0], ids[2])], 9).unwrap();
    }
    database.banned_ban_tokens(&words(&["b"])).unwrap();
    let filter = BannedDictionary::new(&database, &generic).unwrap();
    let nodes = graph.get_nodes(&database, &filter, &vec![ids[0], ids[1]], 9).unwrap();
    assert_eq!(nodes.len(), 1);
    let node = nodes.get(&ids[0]).unwrap();
    assert_eq!(node.len(), 1);
    assert_eq!(node.get(ids[2]), Some(Transition::new(1, 9)));
}

#[test]
fn observing_pairs_records_each_in_the_node_of_its_source() {
    let (mut database, ids) = store_with(&["a", "b", "c"]);
    let generic: Vec<String> = Vec::new();
    let filter = BannedDictionary::new(&database, &generic).unwrap();
    let graph = Statistics::new(Direction::Reverse);
    let pairs = vec![(ids[1], ids[0]), (ids[2], ids[1]), (ids[1], ids[0]), (ids[1], ids[2])];
    graph.observe(&mut database, &filter, &pairs, 7).unwrap();
    let nodes = graph.get_nodes(&database, &filter, &ids, 7).unwrap();
    assert_eq!(nodes.len(), 2);
    let b = nodes.get(&ids[1]).unwrap();
    assert_eq!(b.get(ids[0]), Some(Transition::new(2, 7)));
    assert_eq!(b.get(ids[2]), Some(Transition::new(1, 7)));
    assert_eq!(nodes.get(&ids[2]).unwrap().get(ids[1]), Some(Transition::new(1, 7)));
    assert!(database.model_get_transitions(Direction::Forward, &ids).unwrap().is_empty());
}

#[test]
fn saving_decimates_and_deletes_the_row_of_an_empty_node() {
    let (mut database, ids) = store_with(&["a", "b"]);
    let graph = Statistics::new(Direction::Forward);
    let mut big = HashMap::new();
    for target in 0..101 {
        big.insert(target, Transition::new(3, 0));
    }
    graph.save_nodes(&mut database, vec![(ids[0], Node::new(big)), (ids[1], Node::from_triples(&vec![(1, 1, 1)]))]).unwrap();
    let stored = database.model_get_transitions(Direction::Forward, &ids).unwrap();
    assert_eq!(stored.get(&ids[0]).unwrap().len(), 101);
    assert_eq!(stored.get(&ids[0]).unwrap().get(5), Some(Transition::new(1, 0)));
    assert_eq!(stored.get(&ids[1]).unwrap().get(1), Some(Transition::new(1, 1)));

    graph.save_nodes(&mut database, vec![(ids[1], Node::empty())]).unwrap();
    assert_eq!(database.model_get_blob(Direction::Forward, ids[1]), None);
    assert!(database.model_get_blob(Direction::Forward, ids[0]).is_some());
}

#[test]
fn a_node_of_an_unknown_token_is_refused_and_nothing_is_stored() {
    let (mut database, ids) = store_with(&["a"]);
    let graph = Statistics::new(Direction::Forward);
    let nodes = vec![
        (ids[0], Node::from_triples(&vec![(1, 1, 1)])),
        (12345, Node::from_triples(&vec![(1, 1, 1)])),
    ];
    assert_eq!(graph.save_nodes(&mut database, nodes), Err(EngineError::TransactionFailure));
    assert_eq!(database.model_get_blob(Direction::Forward, ids[0]), None);
}
