use markov::chain::Chain;
use markov::distribution::Distribution;
use markov::random::{RandomSource, SeededSource, ThreadSource};
use std::rc::Rc;

/// Answers with the numbers it was given, one after the other.
struct Script {
    draws: Vec<usize>,
    at: usize,
}

impl Script {
    fn new(draws: Vec<usize>) -> Script {
        Script { draws, at: 0 }
    }
}

impl RandomSource for Script {
    fn below(&mut self, bound: usize) -> usize {
        let draw = self.draws[self.at];
        self.at += 1;
        assert!(draw < bound);
        draw
    }
}

fn values(tokens: Vec<Rc<usize>>) -> Vec<usize> {
    tokens.iter().map(|token| **token).collect()
}

fn two_sentences() -> Chain<usize> {
    let mut chain = Chain::new();
    chain.feed(vec![3usize, 5, 10]).feed(vec![5usize, 12]);
    chain
}

#[test]
fn new_distribution_is_empty() {
    let d = Distribution::new();
    assert_eq!(d.len(), 0);
    assert_eq!(d.total(), 0);
    assert_eq!(d.count(4), 0);
    assert_eq!(d.position(4), None);
}

#[test]
fn record_counts_and_keeps_the_order_of_first_occurrence() {
    let mut d = Distribution::new();
    d.record(7);
    d.record(2);
    d.record(7);
    d.record(9);
    d.record(7);
    assert_eq!(d.len(), 3);
    assert_eq!(d.entry(0), (7, 3));
    assert_eq!(d.entry(1), (2, 1));
    assert_eq!(d.entry(2), (9, 1));
    assert_eq!(d.total(), 5);
    assert_eq!(d.count(7), 3);
    assert_eq!(d.count(2), 1);
    assert_eq!(d.count(8), 0);
    assert_eq!(d.position(9), Some(2));
}

#[test]
fn insert_appends_an_entry() {
    let mut d = Distribution::new();
    d.insert(4, 10);
    d.insert(1, 0);
    d.insert(3, 5);
    assert_eq!(d.entry(0), (4, 10));
    assert_eq!(d.entry(1), (1, 0));
    assert_eq!(d.entry(2), (3, 5));
    assert_eq!(d.total(), 15);
}

#[test]
fn pick_selects_the_first_entry_whose_running_sum_exceeds_the_draw() {
    let mut d = Distribution::new();
    d.insert(4, 2);
    d.insert(1, 0);
    d.insert(3, 3);
    d.insert(8, 1);
    let picked: Vec<usize> = (0..6).map(|draw| d.pick(draw)).collect();
    assert_eq!(picked, vec![4, 4, 3, 3, 3, 8]);
}

#[test]
fn every_successor_is_drawn_by_as_many_numbers_as_its_count() {
    let mut d = Distribution::new();
    for state in [5usize, 6, 5, 7, 5, 6, 5, 9, 9, 5] {
        d.record(state);
    }
    let total = d.total();
    assert_eq!(total, 10);
    for j in 0..d.len() {
        let (state, count) = d.entry(j);
        let share = (0..total).filter(|draw| d.pick(*draw) == state).count();
        assert_eq!(share, count);
    }
}

#[test]
fn thread_source_stays_below_the_bound() {
    let mut source = ThreadSource::new();
    assert_eq!(source.below(1), 0);
    for bound in 1..200usize {
        assert!(source.below(bound) < bound);
    }
}

#[test]
fn thread_source_reaches_every_number() {
    let mut source = ThreadSource::new();
    let mut seen = [false; 4];
    for _ in 0..4000 {
        seen[source.below(4)] = true;
    }
    assert_eq!(seen, [true; 4]);
}

#[test]
fn seeded_source_stays_below_the_bound() {
    let mut source = SeededSource::new(7);
    assert_eq!(source.below(1), 0);
    for bound in 1..200usize {
        assert!(source.below(bound) < bound);
    }
}

#[test]
fn seeded_sources_with_one_seed_agree() {
    let mut a = SeededSource::new(42);
    let mut b = SeededSource::new(42);
    for bound in 1..500usize {
        assert_eq!(a.below(bound), b.below(bound));
    }
}

#[test]
fn seeded_generation_repeats() {
    let chain = two_sentences();
    let mut a = SeededSource::new(2024);
    let mut b = SeededSource::new(2024);
    for _ in 0..50 {
        assert_eq!(values(chain.generate_with(&mut a)), values(chain.generate_with(&mut b)));
    }
}

#[test]
fn scripted_walks_from_the_sentinel() {
    let chain = two_sentences();
    // The sentinel is followed by 3 and by 5, and 5 by 10 and by 12.
    assert_eq!(values(chain.generate_with(&mut Script::new(vec![0, 0, 0, 0]))), vec![3, 5, 10]);
    assert_eq!(values(chain.generate_with(&mut Script::new(vec![0, 0, 1, 0]))), vec![3, 5, 12]);
    assert_eq!(values(chain.generate_with(&mut Script::new(vec![1, 0, 0]))), vec![5, 10]);
    assert_eq!(values(chain.generate_with(&mut Script::new(vec![1, 1, 0]))), vec![5, 12]);
}

#[test]
fn scripted_walks_from_a_token() {
    let chain = two_sentences();
    assert_eq!(
        values(chain.generate_from_token_with(5, &mut Script::new(vec![0, 0]))),
        vec![5, 10]
    );
    assert_eq!(
        values(chain.generate_from_token_with(5, &mut Script::new(vec![1, 0]))),
        vec![5, 12]
    );
    assert_eq!(values(chain.generate_from_token_with(12, &mut Script::new(vec![0]))), vec![12]);
    assert_eq!(values(chain.generate_from_token_with(9, &mut Script::new(vec![]))), vec![]);
}

#[test]
fn generation_from_an_empty_chain_is_empty() {
    let chain: Chain<usize> = Chain::new();
    assert_eq!(values(chain.generate()), vec![]);
    assert_eq!(values(chain.generate_from_token(1)), vec![]);
    assert_eq!(values(chain.generate_with(&mut Script::new(vec![]))), vec![]);
}

#[test]
fn walk_ends_in_a_state_without_successors() {
    // A table that no feed produces: nothing follows 4.
    let given = vec![(None, vec![(Some(Rc::new(4usize)), 1)]), (Some(Rc::new(4usize)), vec![])];
    let chain = Chain::from_snapshot(given).unwrap();
    assert_eq!(values(chain.generate()), vec![4]);
    assert_eq!(values(chain.generate_from_token(4)), vec![4]);
}

#[test]
fn states_are_numbered_in_the_order_of_registration() {
    let chain = two_sentences();
    assert_eq!(chain.len(), 5);
    assert_eq!(chain.start_state(), 0);
    assert_eq!(chain.state_of(&3), Some(1));
    assert_eq!(chain.state_of(&5), Some(2));
    assert_eq!(chain.state_of(&10), Some(3));
    assert_eq!(chain.state_of(&12), Some(4));
    assert_eq!(chain.state_of(&9), None);
    assert_eq!(chain.token_of(0), None);
    assert_eq!(chain.token_of(2), Some(Rc::new(5)));
    assert_eq!(chain.token_of(5), None);
}

#[test]
fn step_follows_the_row_of_the_state() {
    let chain = two_sentences();
    assert_eq!(chain.total_of(0), 2);
    assert_eq!(chain.total_of(1), 1);
    assert_eq!(chain.total_of(2), 2);
    assert_eq!(chain.total_of(3), 1);
    assert_eq!(chain.step(0, 0), 1);
    assert_eq!(chain.step(0, 1), 2);
    assert_eq!(chain.step(1, 0), 2);
    assert_eq!(chain.step(2, 0), 3);
    assert_eq!(chain.step(2, 1), 4);
    assert_eq!(chain.step(3, 0), 0);
    assert_eq!(chain.step(4, 0), 0);
}

#[test]
fn generated_tokens_follow_each_other_in_the_table() {
    let mut chain = Chain::new();
    chain.feed(vec![1usize, 2, 3, 1, 2, 4]).feed(vec![2usize, 1, 1, 3]).feed(vec![4usize]);
    let table = chain.snapshot();
    let follows = |from: Option<usize>, to: Option<usize>| {
        table.iter().any(|(state, row)| {
            state.as_deref().copied() == from
                && row.iter().any(|(next, count)| next.as_deref().copied() == to && *count > 0)
        })
    };
    for _ in 0..200 {
        let out = values(chain.generate());
        assert!(!out.is_empty());
        let mut state = None;
        for token in out {
            assert!(follows(state, Some(token)));
            state = Some(token);
        }
        assert!(follows(state, None));
    }
}

#[test]
fn tokens_are_shared_with_the_chain() {
    let chain = two_sentences();
    let first = chain.token_of(2).unwrap();
    let out = chain.generate_from_token(5);
    assert!(Rc::ptr_eq(&first, &out[0]));
}
