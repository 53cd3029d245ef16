//! What a training sequence says: which states it names, and which state follows which.

use vstd::prelude::*;
use crate::row::{
    lemma_bump_count, lemma_bump_keys, lemma_bump_total, row_bump, row_count, row_keys, row_total,
};
use crate::table::{count, successors, table_states, total, Table};

verus! {

/// `known`, followed by the items that are not in it, each once, in the order of their
/// first occurrence in `items`.
pub open spec fn first_seen<K>(known: Seq<K>, items: Seq<K>) -> Seq<K>
    decreases items.len(),
{
    if items.len() == 0 {
        known
    } else {
        let before = first_seen(known, items.drop_last());
        if before.contains(items.last()) {
            before
        } else {
            before.push(items.last())
        }
    }
}

/// The items that stand directly behind an occurrence of `a` in `path`, in order.
pub open spec fn followers<K>(path: Seq<K>, a: K) -> Seq<K>
    decreases path.len(),
{
    if path.len() < 2 {
        Seq::empty()
    } else if path[path.len() - 2] == a {
        followers(path.drop_last(), a).push(path.last())
    } else {
        followers(path.drop_last(), a)
    }
}

/// How often `b` stands directly behind `a` in `path`.
pub open spec fn transitions<K>(path: Seq<K>, a: K, b: K) -> nat
    decreases path.len(),
{
    if path.len() < 2 {
        0
    } else if path[path.len() - 2] == a && path.last() == b {
        transitions(path.drop_last(), a, b) + 1
    } else {
        transitions(path.drop_last(), a, b)
    }
}

/// How often `item` occurs in `items`.
pub open spec fn occurrences<K>(items: Seq<K>, item: K) -> nat
    decreases items.len(),
{
    if items.len() == 0 {
        0
    } else if items.last() == item {
        occurrences(items.drop_last(), item) + 1
    } else {
        occurrences(items.drop_last(), item)
    }
}

/// The tokens as states.
pub open spec fn as_states<V>(tokens: Seq<V>) -> Seq<Option<V>> {
    Seq::new(tokens.len(), |i: int| Some(tokens[i]))
}

/// The sequence that is recorded for `tokens`: the tokens between two sentinels.
pub open spec fn augmented<V>(tokens: Seq<V>) -> Seq<Option<V>> {
    Seq::new(
        tokens.len() + 2,
        |i: int|
            if 1 <= i <= tokens.len() {
                Some(tokens[i - 1])
            } else {
                None
            },
    )
}

/// How a table changes when `tokens`, a sequence that is not empty, is fed.
///
/// The tokens that were not registered are registered behind the others, in the order
/// of their first occurrence. The row of every state gains the states that follow it in
/// the augmented sequence and were not in the row, again in the order of their first
/// occurrence. Every count grows by the number of times that the one state follows the
/// other in the augmented sequence, and so the total of every state grows by the number
/// of its followers.
pub open spec fn fed<V>(before: Table<V>, after: Table<V>, tokens: Seq<V>) -> bool {
    let path = augmented(tokens);
    &&& table_states(after) == first_seen(table_states(before), as_states(tokens))
    &&& forall|a: Option<V>| #[trigger]
        successors(after, a) == first_seen(successors(before, a), followers(path, a))
    &&& forall|a: Option<V>, b: Option<V>| #[trigger]
        count(after, a, b) == count(before, a, b) + transitions(path, a, b)
    &&& forall|a: Option<V>| #[trigger]
        total(after, a) == total(before, a) + followers(path, a).len()
}

/// `row` after the observation of every item of `items`, in order.
pub open spec fn bump_all<K>(row: Seq<(K, nat)>, items: Seq<K>) -> Seq<(K, nat)>
    decreases items.len(),
{
    if items.len() == 0 {
        row
    } else {
        row_bump(bump_all(row, items.drop_last()), items.last())
    }
}

/// Recording a sequence of items appends the new keys in the order of their first
/// occurrence, and keeps the keys free of duplicates.
pub proof fn lemma_bump_all_keys<K>(row: Seq<(K, nat)>, items: Seq<K>)
    ensures
        row_keys(bump_all(row, items)) == first_seen(row_keys(row), items),
        row_keys(row).no_duplicates() ==> row_keys(bump_all(row, items)).no_duplicates(),
    decreases items.len(),
{
    if items.len() > 0 {
        lemma_bump_all_keys(row, items.drop_last());
        lemma_bump_keys(bump_all(row, items.drop_last()), items.last());
    }
}

/// Recording a sequence of items adds to each count the number of occurrences.
pub proof fn lemma_bump_all_count<K>(row: Seq<(K, nat)>, items: Seq<K>, key: K)
    requires
        row_keys(row).no_duplicates(),
    ensures
        row_count(bump_all(row, items), key) == row_count(row, key) + occurrences(items, key),
    decreases items.len(),
{
    if items.len() > 0 {
        lemma_bump_all_count(row, items.drop_last(), key);
        lemma_bump_all_keys(row, items.drop_last());
        lemma_bump_count(bump_all(row, items.drop_last()), items.last(), key);
    }
}

/// Recording a sequence of items adds its length to the total.
pub proof fn lemma_bump_all_total<K>(row: Seq<(K, nat)>, items: Seq<K>)
    ensures
        row_total(bump_all(row, items)) == row_total(row) + items.len(),
    decreases items.len(),
{
    if items.len() > 0 {
        lemma_bump_all_total(row, items.drop_last());
        lemma_bump_total(bump_all(row, items.drop_last()), items.last());
    }
}

/// `b` follows `a` as often as it occurs among the followers of `a`.
pub proof fn lemma_followers_occurrences<K>(path: Seq<K>, a: K, b: K)
    ensures
        occurrences(followers(path, a), b) == transitions(path, a, b),
    decreases path.len(),
{
    if path.len() >= 2 {
        lemma_followers_occurrences(path.drop_last(), a, b);
        if path[path.len() - 2] == a {
            assert(followers(path, a).drop_last() =~= followers(path.drop_last(), a));
        }
    }
}

/// A state has fewer followers than the path has items.
pub proof fn lemma_followers_len<K>(path: Seq<K>, a: K)
    ensures
        followers(path, a).len() < path.len() || followers(path, a).len() == 0,
    decreases path.len(),
{
    if path.len() >= 2 {
        lemma_followers_len(path.drop_last(), a);
    }
}

/// A state that does not occur in the path, except perhaps at its end, has no followers.
pub proof fn lemma_followers_absent<K>(path: Seq<K>, a: K)
    requires
        forall|i: int| 0 <= i < path.len() - 1 ==> path[i] != a,
    ensures
        followers(path, a) == Seq::<K>::empty(),
    decreases path.len(),
{
    if path.len() >= 2 {
        lemma_followers_absent(path.drop_last(), a);
    }
}

/// Extending a path by one item gives the item before it one more follower.
pub proof fn lemma_followers_step<K>(path: Seq<K>, n: int, a: K)
    requires
        2 <= n <= path.len(),
    ensures
        followers(path.take(n), a) == if path[n - 2] == a {
            followers(path.take(n - 1), a).push(path[n - 1])
        } else {
            followers(path.take(n - 1), a)
        },
{
    assert(path.take(n).drop_last() =~= path.take(n - 1));
}

} // verus!
