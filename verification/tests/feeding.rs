use markov::chain::{same_token, Chain};
use std::rc::Rc;

type Shared<T> = Vec<(Option<Rc<T>>, Vec<(Option<Rc<T>>, usize)>)>;

fn shared<T>(plain: Vec<(Option<T>, Vec<(Option<T>, usize)>)>) -> Shared<T> {
    plain
        .into_iter()
        .map(|(state, row)| {
            let row = row.into_iter().map(|(to, count)| (to.map(Rc::new), count));
            (state.map(Rc::new), row.collect())
        })
        .collect()
}

#[test]
fn feeding_nothing_changes_nothing() {
    let mut chain: Chain<u8> = Chain::new();
    chain.feed(vec![]);
    assert!(chain.is_empty());
    assert_eq!(chain.snapshot(), vec![(None, vec![])]);
    chain.feed(vec![1, 2]);
    let before = chain.snapshot();
    chain.feed(vec![]);
    assert_eq!(chain.snapshot(), before);
    assert!(!chain.is_empty());
}

#[test]
fn first_token_is_registered_after_a_feed() {
    let mut chain = Chain::new();
    chain.feed(vec!['a', 'b', 'c']);
    assert!(!chain.is_empty());
    assert!(chain.state_of(&'a').is_some());
    assert!(chain.state_of(&'b').is_some());
    assert!(chain.state_of(&'c').is_some());
    assert!(chain.state_of(&'d').is_none());
}

#[test]
fn every_pair_of_neighbours_is_counted_once() {
    let mut chain = Chain::new();
    chain.feed(vec![1u8, 2, 1, 2, 2]);
    let expected: Shared<u8> = shared(vec![
        (None, vec![(Some(1), 1)]),
        (Some(1), vec![(Some(2), 2)]),
        (Some(2), vec![(Some(1), 1), (Some(2), 1), (None, 1)]),
    ]);
    assert_eq!(chain.snapshot(), expected);
}

#[test]
fn feeding_twice_doubles_the_counts() {
    let mut chain = Chain::new();
    chain.feed(vec![1u8, 2, 1, 2, 2]).feed(vec![1u8, 2, 1, 2, 2]);
    let expected: Shared<u8> = shared(vec![
        (None, vec![(Some(1), 2)]),
        (Some(1), vec![(Some(2), 4)]),
        (Some(2), vec![(Some(1), 2), (Some(2), 2), (None, 2)]),
    ]);
    assert_eq!(chain.snapshot(), expected);
}

#[test]
fn later_feeds_add_to_earlier_ones() {
    let mut chain = Chain::new();
    chain.feed(vec![1u8, 2]);
    chain.feed(vec![3u8, 2]);
    chain.feed(vec![2u8]);
    let expected: Shared<u8> = shared(vec![
        (None, vec![(Some(1), 1), (Some(3), 1), (Some(2), 1)]),
        (Some(1), vec![(Some(2), 1)]),
        (Some(2), vec![(None, 3)]),
        (Some(3), vec![(Some(2), 1)]),
    ]);
    assert_eq!(chain.snapshot(), expected);
}

#[test]
fn one_token_stands_between_two_sentinels() {
    let mut chain = Chain::new();
    chain.feed(vec![9u8]);
    let expected: Shared<u8> =
        shared(vec![(None, vec![(Some(9), 1)]), (Some(9), vec![(None, 1)])]);
    assert_eq!(chain.snapshot(), expected);
}

#[test]
fn equal_tokens_share_one_state() {
    let mut chain = Chain::new();
    chain.feed(vec!["a".to_string(), "a".to_string(), "a".to_string()]);
    assert_eq!(chain.len(), 2);
    let snapshot = chain.snapshot();
    let state = snapshot[1].0.clone().unwrap();
    let successor = snapshot[1].1[0].0.clone().unwrap();
    assert!(Rc::ptr_eq(&state, &successor));
    assert_eq!(snapshot[1].1[0].1, 2);
}

#[test]
fn can_feed_tells_when_a_total_would_leave_the_range() {
    let chain: Chain<u8> = Chain::new();
    assert!(chain.can_feed(0));
    assert!(chain.can_feed(usize::MAX - 1));
    assert!(!chain.can_feed(usize::MAX));
    let full: Shared<u8> =
        shared(vec![(None, vec![(Some(1), usize::MAX - 3)]), (Some(1), vec![(None, 5)])]);
    let chain = Chain::from_snapshot(full).unwrap();
    assert!(chain.can_feed(2));
    assert!(!chain.can_feed(3));
}

#[test]
fn feed_up_to_the_last_count() {
    let full: Shared<u8> =
        shared(vec![(None, vec![(Some(1), usize::MAX - 2)]), (Some(1), vec![(None, 5)])]);
    let mut chain = Chain::from_snapshot(full).unwrap();
    assert!(chain.can_feed(1));
    chain.feed(vec![1]);
    assert_eq!(chain.total_of(0), usize::MAX - 1);
    assert!(!chain.can_feed(1));
}

#[test]
fn same_token_compares_by_value() {
    assert!(same_token(&3u8, &3u8));
    assert!(!same_token(&3u8, &4u8));
    assert!(same_token(&"cat".to_string(), &"cat".to_string()));
    assert!(!same_token(&"cat".to_string(), &"cats".to_string()));
}
