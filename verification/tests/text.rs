use markov::chain::Chain;
use markov::random::SeededSource;
use markov::text::{drop_empty, split};
use std::rc::Rc;

fn words(texts: &[&str]) -> Vec<String> {
    texts.iter().map(|text| text.to_string()).collect()
}

fn handles(texts: &[&str]) -> Vec<Rc<String>> {
    texts.iter().map(|text| Rc::new(text.to_string())).collect()
}

fn states(chain: &Chain<String>) -> Vec<Option<String>> {
    chain.snapshot().into_iter().map(|(state, _)| state.map(|t| (*t).clone())).collect()
}

#[test]
fn split_cuts_at_every_space() {
    assert_eq!(split("I like cats", false), words(&["I", "like", "cats"]));
    assert_eq!(split("", false), words(&[""]));
    assert_eq!(split(" ", false), words(&["", ""]));
    assert_eq!(split("a  b ", false), words(&["a", "", "b", ""]));
    assert_eq!(split("a\tb\nc", false), words(&["a\tb\nc"]));
    assert_eq!(split("na\u{ef}ve caf\u{e9}", false), words(&["na\u{ef}ve", "caf\u{e9}"]));
}

#[test]
fn split_cuts_at_every_blank() {
    assert_eq!(split("a\tb\nc\rd e", true), words(&["a", "b", "c", "d", "e"]));
    assert_eq!(split("a \t b\r\n", true), words(&["a", "", "", "b", "", ""]));
}

#[test]
fn drop_empty_keeps_the_words() {
    assert_eq!(drop_empty(words(&["", "a", "", "", "b", ""])), words(&["a", "b"]));
    assert_eq!(drop_empty(words(&["", ""])), words(&[]));
    assert_eq!(drop_empty(words(&[])), words(&[]));
}

#[test]
fn vec_to_string_puts_one_space_between_words() {
    assert_eq!(Chain::vec_to_string(handles(&[])), "");
    assert_eq!(Chain::vec_to_string(handles(&["cats"])), "cats");
    assert_eq!(Chain::vec_to_string(handles(&["I", "like", "cats"])), "I like cats");
    assert_eq!(Chain::vec_to_string(handles(&["", "a", ""])), " a ");
}

#[test]
fn joining_the_pieces_gives_the_text_back() {
    for text in ["", " ", "I like cats", "  two  spaces ", "tab\tand space"] {
        let pieces = split(text, false).into_iter().map(Rc::new).collect();
        assert_eq!(Chain::vec_to_string(pieces), text);
    }
}

#[test]
fn feed_str_registers_the_pieces() {
    let mut chain = Chain::new();
    chain.feed_str("I like cats and I like dogs");
    assert_eq!(
        states(&chain),
        vec![
            None,
            Some("I".to_string()),
            Some("like".to_string()),
            Some("cats".to_string()),
            Some("and".to_string()),
            Some("dogs".to_string()),
        ]
    );
}

#[test]
fn feed_str_of_an_empty_text_feeds_one_empty_word() {
    let mut chain = Chain::new();
    chain.feed_str("");
    assert!(!chain.is_empty());
    assert_eq!(states(&chain), vec![None, Some(String::new())]);
    assert_eq!(chain.generate_str(), "");
}

#[test]
fn feed_line_feeds_the_words() {
    let mut chain = Chain::new();
    chain.feed_line("  I like\tcats \r\n");
    let mut other = Chain::new();
    other.feed(words(&["I", "like", "cats"]));
    assert_eq!(chain.snapshot(), other.snapshot());
    assert_eq!(chain.generate_str(), "I like cats");
}

#[test]
fn feed_line_without_a_word_changes_nothing() {
    let mut chain = Chain::new();
    chain.feed_line(" \t \r\n");
    chain.feed_line("");
    assert!(chain.is_empty());
    assert_eq!(chain.len(), 1);
}

#[test]
fn generate_str_from_token_starts_with_the_word() {
    let mut chain = Chain::new();
    chain.feed_str("I like cats").feed_str("I hate cats");
    assert_eq!(chain.generate_str_from_token("like"), "like cats");
    assert_eq!(chain.generate_str_from_token("cats"), "cats");
    assert_eq!(chain.generate_str_from_token("dogs"), "");
}

#[test]
fn seeded_texts_repeat() {
    let mut chain = Chain::new();
    chain.feed_str("I like cats").feed_str("I hate cats").feed_str("cats hate dogs");
    let mut a = SeededSource::new(5);
    let mut b = SeededSource::new(5);
    for _ in 0..30 {
        assert_eq!(chain.generate_str_with(&mut a), chain.generate_str_with(&mut b));
    }
    for _ in 0..30 {
        assert_eq!(
            chain.generate_str_from_token_with("cats", &mut a),
            chain.generate_str_from_token_with("cats", &mut b)
        );
    }
}

#[test]
fn sized_iterators_hand_out_their_size() {
    let mut chain = Chain::new();
    chain.feed_str("I like cats and I like dogs");
    let mut it = chain.iter_for(2);
    assert_eq!(it.size_hint(), (2, Some(2)));
    assert!(it.next().is_some());
    assert_eq!(it.size_hint(), (1, Some(1)));
    assert!(it.next().is_some());
    assert_eq!(it.size_hint(), (0, Some(0)));
    assert!(it.next().is_none());
    assert!(it.next().is_none());
    assert_eq!(chain.iter_for(0).collect().len(), 0);
    let mut texts = chain.str_iter_for(3);
    assert_eq!(texts.size_hint(), (3, Some(3)));
    let first = texts.next().unwrap();
    assert!(first.starts_with("I like"));
    assert_eq!(texts.collect().len(), 2);
}

#[test]
fn infinite_iterators_go_on() {
    let mut chain = Chain::new();
    chain.feed_str("I like cats");
    let mut it = chain.iter();
    let mut texts = chain.str_iter();
    assert_eq!(it.size_hint(), (0, None));
    for _ in 0..100 {
        assert_eq!(it.next().unwrap().len(), 3);
        assert_eq!(texts.next().unwrap(), "I like cats");
    }
}
