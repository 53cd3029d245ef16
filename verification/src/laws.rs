//! What holds of every chain, stated over the tables and proved from the definitions.

use vstd::prelude::*;
use vstd::set_lib::{lemma_int_range, set_int_range};
use std::rc::Rc;
use crate::chain::{snapshot_table, Chain};
use crate::row::{
    lemma_picks_interval, lemma_prefix_total_agrees, lemma_row_count_at, picks, prefix_total,
    row_count, row_keys, row_total,
};
use crate::table::{
    count, empty_table, has_state, is_walk, lemma_table_row_at, table_row, table_states, total,
    valid_table, walk_state, Table,
};
use crate::text::{joined, nonempty, pieces, separates};
use crate::training::{
    as_states, augmented, fed, first_seen, lemma_followers_len, transitions,
};

verus! {

/// The table of a new chain is valid and counts nothing.
pub proof fn lemma_empty_table<V>()
    ensures
        valid_table(empty_table::<V>()),
        forall|a: Option<V>| #[trigger] total(empty_table::<V>(), a) == 0,
        forall|a: Option<V>, b: Option<V>| #[trigger] count(empty_table::<V>(), a, b) == 0,
{
    let table = empty_table::<V>();
    assert(table_states(table)[0] == None::<V>);
    assert forall|a: Option<V>| table_row(table, a) == Seq::<(Option<V>, nat)>::empty() by {
        if has_state(table, a) {
            let i = table_states(table).index_of(a);
            assert(table_states(table)[i] == a);
        }
    }
}

/// What `first_seen` holds: the known items and the new ones, and nothing else.
pub proof fn lemma_first_seen_contains<K>(known: Seq<K>, items: Seq<K>, x: K)
    ensures
        first_seen(known, items).contains(x) <==> known.contains(x) || items.contains(x),
    decreases items.len(),
{
    if items.len() > 0 {
        let rest = items.drop_last();
        lemma_first_seen_contains(known, rest, x);
        let before = first_seen(known, rest);
        if items.contains(x) {
            let i = items.index_of(x);
            if i < rest.len() {
                assert(rest[i] == x);
            }
        }
        if rest.contains(x) {
            let i = rest.index_of(x);
            assert(items[i] == x);
        }
        if !before.contains(items.last()) {
            let after = before.push(items.last());
            assert(after[after.len() - 1] == items.last());
            if before.contains(x) {
                let i = before.index_of(x);
                assert(after[i] == x);
            }
            if after.contains(x) {
                let i = after.index_of(x);
                assert(after[i] == x);
            }
        }
    }
}

/// A feed registers the tokens that it is given, and no others.
pub proof fn lemma_fed_states<V>(before: Table<V>, after: Table<V>, tokens: Seq<V>, token: V)
    requires
        fed(before, after, tokens),
    ensures
        has_state(after, Some(token)) <==> has_state(before, Some(token)) || tokens.contains(
            token,
        ),
        has_state(after, None) <==> has_state(before, None),
{
    let items = as_states(tokens);
    lemma_first_seen_contains(table_states(before), items, Some(token));
    lemma_first_seen_contains(table_states(before), items, None);
    if tokens.contains(token) {
        let i = tokens.index_of(token);
        assert(items[i] == Some(token));
    }
    if items.contains(Some(token)) {
        let i = items.index_of(Some(token));
        assert(tokens[i] == token);
    }
    if items.contains(None) {
        let i = items.index_of(None);
        assert(items[i] == Some(tokens[i]));
    }
}

/// Where `b` stands behind `a` in a path, it is counted at least once.
pub proof fn lemma_transitions_at<K>(path: Seq<K>, i: int, a: K, b: K)
    requires
        0 <= i < path.len() - 1,
        path[i] == a,
        path[i + 1] == b,
    ensures
        transitions(path, a, b) >= 1,
    decreases path.len(),
{
    if i + 2 < path.len() {
        lemma_transitions_at(path.drop_last(), i, a, b);
    }
}

/// No count in a row exceeds the total of the row.
pub proof fn lemma_count_below_total<K>(row: Seq<(K, nat)>, key: K)
    ensures
        row_count(row, key) <= row_total(row),
    decreases row.len(),
{
    if row.len() > 0 {
        lemma_count_below_total(row.drop_last(), key);
        lemma_prefix_total_agrees(row.drop_last(), row, row.len() - 1);
    }
}

/// After a feed of tokens the chain is not empty, and every token is registered: the
/// first of them has followed the sentinel.
pub proof fn lemma_fed_not_empty<V>(before: Table<V>, after: Table<V>, tokens: Seq<V>)
    requires
        fed(before, after, tokens),
        tokens.len() > 0,
    ensures
        count(after, None, Some(tokens[0])) > 0,
        total(after, None) > 0,
        forall|i: int| 0 <= i < tokens.len() ==> has_state(after, Some(#[trigger] tokens[i])),
{
    let path = augmented(tokens);
    lemma_transitions_at(path, 0, None, Some(tokens[0]));
    lemma_count_below_total(table_row(after, None), Some(tokens[0]));
    assert forall|i: int| 0 <= i < tokens.len() implies has_state(
        after,
        Some(#[trigger] tokens[i]),
    ) by {
        lemma_fed_states(before, after, tokens, tokens[i]);
    }
}

/// A feed of `n` tokens adds at most `n + 1` to a total: a chain that could be fed `n + m + 1`
/// tokens can, after a feed of `n`, be fed `m` more.
pub proof fn lemma_fed_totals<V>(before: Table<V>, after: Table<V>, tokens: Seq<V>)
    requires
        fed(before, after, tokens),
    ensures
        forall|a: Option<V>| #[trigger] total(after, a) <= total(before, a) + tokens.len() + 1,
{
    let path = augmented(tokens);
    assert forall|a: Option<V>| #[trigger] total(after, a) <= total(before, a) + tokens.len()
        + 1 by {
        lemma_followers_len(path, a);
    }
}

/// Feeding the same tokens twice adds to every count twice what one feed adds.
pub proof fn lemma_feed_twice<V>(
    before: Table<V>,
    between: Table<V>,
    after: Table<V>,
    tokens: Seq<V>,
    a: Option<V>,
    b: Option<V>,
)
    requires
        fed(before, between, tokens),
        fed(between, after, tokens),
    ensures
        count(after, a, b) == count(before, a, b) + 2 * transitions(augmented(tokens), a, b),
{
    let path = augmented(tokens);
    assert(count(between, a, b) == count(before, a, b) + transitions(path, a, b));
    assert(count(after, a, b) == count(between, a, b) + transitions(path, a, b));
}

/// A key with a positive count has an entry.
pub proof fn lemma_counted_has_entry<K>(row: Seq<(K, nat)>, key: K)
    requires
        row_count(row, key) > 0,
    ensures
        row_keys(row).contains(key),
    decreases row.len(),
{
    if row.len() > 0 {
        if row.last().0 == key {
            assert(row_keys(row)[row.len() - 1] == key);
        } else {
            lemma_counted_has_entry(row.drop_last(), key);
            let i = row_keys(row.drop_last()).index_of(key);
            assert(row_keys(row)[i] == key);
        }
    }
}

/// Every token of a walk is a registered state: a walk never passes through the sentinel,
/// nor through a token that was never fed.
pub proof fn lemma_walk_registered<V>(table: Table<V>, from: Option<V>, path: Seq<V>, i: int)
    requires
        valid_table(table),
        is_walk(table, from, path),
        0 <= i < path.len(),
    ensures
        has_state(table, Some(path[i])),
        has_state(table, walk_state(from, path, i)),
{
    let state = walk_state(from, path, i);
    let row = table_row(table, state);
    lemma_counted_has_entry(row, Some(path[i]));
    let j = row_keys(row).index_of(Some(path[i]));
    assert(row[j].0 == Some(path[i]));
    let s = table_states(table).index_of(state);
    assert(table_states(table)[s] == state);
}

/// A snapshot of a chain is accepted, and the chain that is built from it has the table of
/// the first: the same states, the same rows, the same counts.
pub proof fn lemma_snapshot_round_trip<T: View>(
    chain: Chain<T>,
    snapshot: Seq<(Option<Rc<T>>, Vec<(Option<Rc<T>>, usize)>)>,
    rebuilt: Option<Chain<T>>,
)
    requires
        chain.wf(),
        snapshot_table(snapshot) == chain@,
        rebuilt is Some <==> valid_table(snapshot_table(snapshot)),
        rebuilt matches Some(c) ==> c@ == snapshot_table(snapshot),
    ensures
        rebuilt is Some,
        rebuilt->0@ == chain@,
        forall|a: Option<T::V>, b: Option<T::V>| #[trigger]
            count(rebuilt->0@, a, b) == count(chain@, a, b),
{
    chain.lemma_valid();
}

/// Of the `row_total(row)` numbers that can be drawn, exactly `row[j].1` select entry `j`.
/// With every number as likely as the others, a successor is drawn with the probability
/// of its count over the total.
pub proof fn lemma_pick_share<K>(row: Seq<(K, nat)>, j: int)
    requires
        0 <= j < row.len(),
    ensures
        Set::new(|draw: int| picks(row, draw, j)).finite(),
        Set::new(|draw: int| picks(row, draw, j)).len() == row[j].1,
        forall|draw: int| picks(row, draw, j) ==> 0 <= draw < row_total(row),
{
    let low = prefix_total(row, j) as int;
    let high = low + row[j].1;
    assert forall|draw: int| picks(row, draw, j) <==> low <= draw < high by {
        lemma_picks_interval(row, draw, j);
    }
    lemma_picks_interval(row, low, j);
    assert(Set::new(|draw: int| picks(row, draw, j)) =~= set_int_range(low, high));
    lemma_int_range(low, high);
}

/// The count of a successor is the count of its entry, so that `lemma_pick_share` speaks
/// of `count(table, from, to)`.
pub proof fn lemma_count_is_entry<V>(table: Table<V>, i: int, j: int)
    requires
        valid_table(table),
        0 <= i < table.len(),
        0 <= j < table[i].1.len(),
    ensures
        count(table, table[i].0, table[i].1[j].0) == table[i].1[j].1,
        total(table, table[i].0) == row_total(table[i].1),
{
    lemma_table_row_at(table, i);
    lemma_row_count_at(table[i].1, j);
}

/// A text has no more words than characters.
pub proof fn lemma_words_bound(text: Seq<char>, blanks: bool)
    ensures
        nonempty(pieces(text, blanks)).len() <= text.len(),
        nonempty(pieces(text, blanks).drop_last()).len() + pieces(text, blanks).last().len()
            <= text.len(),
        pieces(text, blanks).len() >= 1,
    decreases text.len(),
{
    let all = pieces(text, blanks);
    if text.len() == 0 {
    } else {
        let rest = text.drop_last();
        lemma_words_bound(rest, blanks);
        let before = pieces(rest, blanks);
        if separates(text.last(), blanks) {
            assert(all.drop_last() =~= before);
        } else {
            assert(all.drop_last() =~= before.drop_last());
        }
    }
    assert(nonempty(all).len() <= nonempty(all.drop_last()).len() + all.last().len());
}

/// Joining the pieces of a text with spaces gives the text back.
pub proof fn lemma_join_pieces(text: Seq<char>)
    ensures
        joined(pieces(text, false)) == text,
        pieces(text, false).len() >= 1,
    decreases text.len(),
{
    if text.len() > 0 {
        let rest = text.drop_last();
        lemma_join_pieces(rest);
        let before = pieces(rest, false);
        let c = text.last();
        if c == ' ' {
            let after = before.push(Seq::empty());
            assert(after.drop_last() =~= before);
        } else {
            let word = before.last().push(c);
            let after = before.drop_last().push(word);
            assert(after.drop_last() =~= before.drop_last());
            if before.len() == 1 {
            } else {
                assert(joined(after) =~= joined(before.drop_last()) + seq![' '] + before.last()
                    + seq![c]);
            }
        }
    }
}

} // verus!
