//! Chains of words: text is cut into tokens, and generated tokens are joined into text.

use vstd::prelude::*;
use vstd::string::StringExecFns;
use std::rc::Rc;
use crate::chain::{handle_views, token_views, Chain};
use crate::random::{RandomSource, ThreadSource};
use crate::table::{total, walked, Table};
use crate::training::fed;
use crate::walk::started;

verus! {

/// Whether `c` ends a piece of text: a space, or with `blanks` also a tab, a line feed or
/// a carriage return.
pub open spec fn separates(c: char, blanks: bool) -> bool {
    c == ' ' || (blanks && (c == '\t' || c == '\n' || c == '\r'))
}

/// The pieces of `text` between its separators. Two separators in a row, and one at
/// either end, give an empty piece; a text without separators is one piece.
pub open spec fn pieces(text: Seq<char>, blanks: bool) -> Seq<Seq<char>>
    decreases text.len(),
{
    if text.len() == 0 {
        seq![Seq::empty()]
    } else {
        let before = pieces(text.drop_last(), blanks);
        if separates(text.last(), blanks) {
            before.push(Seq::empty())
        } else {
            before.drop_last().push(before.last().push(text.last()))
        }
    }
}

/// The pieces that are not empty, in order.
pub open spec fn nonempty(items: Seq<Seq<char>>) -> Seq<Seq<char>>
    decreases items.len(),
{
    if items.len() == 0 {
        Seq::empty()
    } else if items.last().len() == 0 {
        nonempty(items.drop_last())
    } else {
        nonempty(items.drop_last()).push(items.last())
    }
}

/// The words with one space between neighbours.
pub open spec fn joined(words: Seq<Seq<char>>) -> Seq<char>
    decreases words.len(),
{
    if words.len() == 0 {
        Seq::empty()
    } else if words.len() == 1 {
        words[0]
    } else {
        joined(words.drop_last()) + seq![' '] + words.last()
    }
}

/// A text has at least one piece, and at most one more than it has characters.
pub proof fn lemma_pieces_len(text: Seq<char>, blanks: bool)
    ensures
        1 <= pieces(text, blanks).len() <= text.len() + 1,
    decreases text.len(),
{
    if text.len() > 0 {
        lemma_pieces_len(text.drop_last(), blanks);
    }
}

/// Calls `String::push`, which appends the character to the end of the string.
#[verifier::external_body]
fn push_char(text: &mut String, c: char)
    ensures
        final(text)@ == old(text)@.push(c),
{
    text.push(c)
}

/// Whether `c` ends a piece of text.
fn is_separator(c: char, blanks: bool) -> (r: bool)
    ensures
        r == separates(c, blanks),
{
    c == ' ' || (blanks && (c == '\t' || c == '\n' || c == '\r'))
}

/// Cuts `text` at every separator.
pub fn split(text: &str, blanks: bool) -> (words: Vec<String>)
    ensures
        token_views(words@) == pieces(text@, blanks),
{
    let mut words: Vec<String> = Vec::new();
    let mut word = String::new();
    for c in it: text.chars()
        invariant
            it.seq() == text@,
            token_views(words@).push(word@) == pieces(text@.take(it.index()), blanks),
    {
        let ghost k = it.index();
        proof {
            assert(text@.take(k + 1).drop_last() =~= text@.take(k));
        }
        if is_separator(c, blanks) {
            words.push(word);
            word = String::new();
        } else {
            push_char(&mut word, c);
        }
    }
    words.push(word);
    proof {
        assert(text@.take(text@.len() as int) =~= text@);
    }
    words
}

/// The strings that are not empty, in order.
pub fn drop_empty(items: Vec<String>) -> (words: Vec<String>)
    ensures
        token_views(words@) == nonempty(token_views(items@)),
{
    let ghost all = token_views(items@);
    let ghost given = items@;
    let mut words: Vec<String> = Vec::new();
    for item in it: items
        invariant
            it.seq() == given,
            all == token_views(given),
            token_views(words@) == nonempty(all.take(it.index())),
    {
        let ghost k = it.index();
        proof {
            assert(all.take(k + 1).drop_last() =~= all.take(k));
        }
        if !item.as_str().is_empty() {
            words.push(item);
        }
    }
    proof {
        assert(all.take(given.len() as int) =~= all);
    }
    words
}

impl Chain<String> {
    /// Joins generated words into a text, with one space between neighbours.
    pub fn vec_to_string(vec: Vec<Rc<String>>) -> (text: String)
        ensures
            text@ == joined(handle_views(vec@)),
    {
        let ghost words = handle_views(vec@);
        let mut text = String::new();
        let mut i: usize = 0;
        proof {
            reveal_strlit(" ");
        }
        while i < vec.len()
            invariant
                i <= vec@.len(),
                words == handle_views(vec@),
                " "@ == seq![' '],
                text@ == joined(words.take(i as int)),
            decreases vec@.len() - i,
        {
            proof {
                assert(words.take(i + 1).drop_last() =~= words.take(i as int));
            }
            if i > 0 {
                text.append(" ");
            }
            text.append((*vec[i]).as_str());
            i = i + 1;
        }
        proof {
            assert(words.take(vec@.len() as int) =~= words);
        }
        text
    }
}

/// Whether `text` is the result of a generation of words: the words of a walk from the
/// sentinel, joined.
pub open spec fn generated_text(table: Table<Seq<char>>, text: Seq<char>) -> bool {
    exists|path: Seq<Seq<char>>| walked(table, None, path) && text == joined(path)
}

/// Whether `text` is the result of a generation that was asked to start with `word`.
pub open spec fn started_text(table: Table<Seq<char>>, word: Seq<char>, text: Seq<char>) -> bool {
    exists|path: Seq<Seq<char>>| started(table, word, path) && text == joined(path)
}

impl Chain<String> {
    /// Feeds the pieces of `string` between its spaces.
    pub fn feed_str(&mut self, string: &str) -> (chain: &mut Chain<String>)
        requires
            old(self).wf(),
            forall|a: Option<Seq<char>>| #[trigger]
                total(old(self)@, a) + pieces(string@, false).len() < usize::MAX,
        ensures
            chain.wf(),
            *final(self) == *final(chain),
            fed(old(self)@, chain@, pieces(string@, false)),
    {
        proof {
            lemma_pieces_len(string@, false);
        }
        self.feed(split(string, false))
    }

    /// Feeds the words of `line`: its pieces between spaces, tabs, line feeds and
    /// carriage returns that are not empty. A line without a word changes nothing.
    pub fn feed_line(&mut self, line: &str) -> (chain: &mut Chain<String>)
        requires
            old(self).wf(),
            forall|a: Option<Seq<char>>| #[trigger]
                total(old(self)@, a) + nonempty(pieces(line@, true)).len() < usize::MAX,
        ensures
            chain.wf(),
            *final(self) == *final(chain),
            nonempty(pieces(line@, true)).len() == 0 ==> chain@ == old(self)@,
            nonempty(pieces(line@, true)).len() > 0 ==> fed(
                old(self)@,
                chain@,
                nonempty(pieces(line@, true)),
            ),
    {
        self.feed(drop_empty(split(line, true)))
    }

    /// Generates a text with numbers from `source`.
    pub fn generate_str_with<R: RandomSource>(&self, source: &mut R) -> (text: String)
        requires
            self.wf(),
        ensures
            generated_text(self@, text@),
    {
        let words = self.generate_with(source);
        Chain::vec_to_string(words)
    }

    /// Generates a text with the random numbers of the current thread.
    pub fn generate_str(&self) -> (text: String)
        requires
            self.wf(),
        ensures
            generated_text(self@, text@),
    {
        let mut source = ThreadSource::new();
        self.generate_str_with(&mut source)
    }

    /// Generates a text that starts with the word `string`, with numbers from `source`.
    /// For a word that was never fed the text is empty.
    pub fn generate_str_from_token_with<R: RandomSource>(&self, string: &str, source: &mut R) -> (text:
        String)
        requires
            self.wf(),
        ensures
            started_text(self@, string@, text@),
    {
        let words = self.generate_from_token_with(string.to_owned(), source);
        Chain::vec_to_string(words)
    }

    /// Generates a text that starts with the word `string`, with the random numbers of
    /// the current thread. For a word that was never fed the text is empty.
    pub fn generate_str_from_token(&self, string: &str) -> (text: String)
        requires
            self.wf(),
        ensures
            started_text(self@, string@, text@),
    {
        let mut source = ThreadSource::new();
        self.generate_str_from_token_with(string, &mut source)
    }
}

} // verus!
