use markov::chain::Chain;
use rustc_serialize::json;
use std::rc::Rc;

type Plain = Vec<(Option<String>, Vec<(Option<String>, usize)>)>;
type Shared<T> = Vec<(Option<Rc<T>>, Vec<(Option<Rc<T>>, usize)>)>;

fn plain(snapshot: Shared<String>) -> Plain {
    snapshot
        .into_iter()
        .map(|(state, row)| {
            let row = row.into_iter().map(|(to, count)| (to.map(|t| (*t).clone()), count));
            (state.map(|t| (*t).clone()), row.collect())
        })
        .collect()
}

fn shared<T>(plain: Vec<(Option<T>, Vec<(Option<T>, usize)>)>) -> Shared<T> {
    plain
        .into_iter()
        .map(|(state, row)| {
            let row = row.into_iter().map(|(to, count)| (to.map(Rc::new), count));
            (state.map(Rc::new), row.collect())
        })
        .collect()
}

fn word(text: &str) -> Option<String> {
    Some(text.to_string())
}

#[test]
fn save() {
    let mut chain = Chain::new();
    chain.feed_str("I like cats and I like dogs");
    let text = json::encode(&plain(chain.snapshot())).unwrap();
    assert_eq!(
        text,
        "[[null,[[\"I\",1]]],[\"I\",[[\"like\",2]]],[\"like\",[[\"cats\",1],[\"dogs\",1]]],\
         [\"cats\",[[\"and\",1]]],[\"and\",[[\"I\",1]]],[\"dogs\",[[null,1]]]]"
    );
}

#[test]
fn load() {
    let mut chain = Chain::new();
    chain.feed_str("I like cats and I like dogs");
    let text = json::encode(&plain(chain.snapshot())).unwrap();
    let document: Plain = json::decode(&text).unwrap();
    let other_chain: Chain<String> = Chain::from_snapshot(shared(document)).unwrap();
    assert_eq!(other_chain.snapshot(), chain.snapshot());
}

#[test]
fn snapshot_of_new_chain() {
    let chain: Chain<u8> = Chain::new();
    assert_eq!(chain.snapshot(), vec![(None, vec![])]);
}

#[test]
fn snapshot_lists_states_and_successors_in_order_of_first_occurrence() {
    let mut chain = Chain::new();
    chain.feed(vec![3usize, 5, 10]).feed(vec![5, 12]);
    let expected: Shared<usize> = shared(vec![
        (None, vec![(Some(3), 1), (Some(5), 1)]),
        (Some(3), vec![(Some(5), 1)]),
        (Some(5), vec![(Some(10), 1), (Some(12), 1)]),
        (Some(10), vec![(None, 1)]),
        (Some(12), vec![(None, 1)]),
    ]);
    assert_eq!(chain.snapshot(), expected);
}

#[test]
fn round_trip_keeps_the_table() {
    let mut chain = Chain::new();
    chain.feed(vec![1u8, 2, 3, 5]).feed(vec![3u8, 9, 2]).feed(vec![2u8, 2, 2]);
    let rebuilt = Chain::from_snapshot(chain.snapshot()).unwrap();
    assert_eq!(rebuilt.snapshot(), chain.snapshot());
    assert_eq!(rebuilt.is_empty(), chain.is_empty());
    assert_eq!(rebuilt.len(), chain.len());
}

#[test]
fn rebuilt_chain_can_be_fed_and_walked() {
    let mut chain = Chain::new();
    chain.feed(vec![7u8]);
    let mut rebuilt = Chain::from_snapshot(chain.snapshot()).unwrap();
    rebuilt.feed(vec![7u8]);
    chain.feed(vec![7u8]);
    assert_eq!(rebuilt.snapshot(), chain.snapshot());
    let out: Vec<u8> = rebuilt.generate().iter().map(|t| **t).collect();
    assert_eq!(out, vec![7u8]);
}

#[test]
fn snapshot_keeps_the_order_it_is_given() {
    let given: Shared<u8> = shared(vec![
        (Some(4), vec![(None, 2), (Some(4), 0)]),
        (None, vec![(Some(4), 3)]),
    ]);
    let chain = Chain::from_snapshot(given.clone()).unwrap();
    assert_eq!(chain.snapshot(), given);
    assert_eq!(chain.start_state(), 1);
    assert!(!chain.is_empty());
}

#[test]
fn snapshot_without_sentinel_is_refused() {
    let given: Shared<u8> = shared(vec![(Some(4), vec![])]);
    assert!(Chain::from_snapshot(given).is_none());
    let none: Shared<u8> = Vec::new();
    assert!(Chain::from_snapshot(none).is_none());
}

#[test]
fn snapshot_with_a_state_twice_is_refused() {
    let given: Shared<u8> = shared(vec![(None, vec![]), (Some(4), vec![]), (Some(4), vec![])]);
    assert!(Chain::from_snapshot(given).is_none());
    let twice: Shared<u8> = shared(vec![(None, vec![]), (None, vec![])]);
    assert!(Chain::from_snapshot(twice).is_none());
}

#[test]
fn snapshot_with_an_unknown_successor_is_refused() {
    let given: Shared<u8> = shared(vec![(None, vec![(Some(4), 1)])]);
    assert!(Chain::from_snapshot(given).is_none());
}

#[test]
fn snapshot_with_a_successor_twice_is_refused() {
    let given: Shared<u8> =
        shared(vec![(None, vec![(Some(4), 1), (Some(4), 1)]), (Some(4), vec![])]);
    assert!(Chain::from_snapshot(given).is_none());
}

#[test]
fn snapshot_with_a_total_out_of_range_is_refused() {
    let given: Shared<u8> = shared(vec![
        (None, vec![(Some(4), usize::MAX), (Some(5), 1)]),
        (Some(4), vec![]),
        (Some(5), vec![]),
    ]);
    assert!(Chain::from_snapshot(given).is_none());
    let fits: Shared<u8> = shared(vec![
        (None, vec![(Some(4), usize::MAX - 1), (Some(5), 1)]),
        (Some(4), vec![]),
        (Some(5), vec![]),
    ]);
    assert!(Chain::from_snapshot(fits).is_some());
}
