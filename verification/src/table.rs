//! The transition table as a mathematical value.
//!
//! A table is the sequence of the registered states, each with the row of its
//! successors. A state is a token, or `None` for the sentinel that stands before the
//! first and after the last token of every sequence.

use vstd::prelude::*;
use crate::row::{row_count, row_keys, row_total, valid_row};

verus! {

/// An ordered row of successors with their counts.
pub type Row<V> = Seq<(Option<V>, nat)>;

/// The registered states in order, each with its row.
pub type Table<V> = Seq<(Option<V>, Row<V>)>;

/// The states of `table`, in the order of their registration.
pub open spec fn table_states<V>(table: Table<V>) -> Seq<Option<V>> {
    Seq::new(table.len(), |i: int| table[i].0)
}

/// Whether `state` is registered in `table`.
pub open spec fn has_state<V>(table: Table<V>, state: Option<V>) -> bool {
    table_states(table).contains(state)
}

/// The row of `state`; empty for a state that is not registered.
pub open spec fn table_row<V>(table: Table<V>, state: Option<V>) -> Row<V> {
    if has_state(table, state) {
        table[table_states(table).index_of(state)].1
    } else {
        Seq::empty()
    }
}

/// The successors recorded for `state`, in the order in which a draw walks them.
pub open spec fn successors<V>(table: Table<V>, state: Option<V>) -> Seq<Option<V>> {
    row_keys(table_row(table, state))
}

/// How often `to` has followed `from`.
pub open spec fn count<V>(table: Table<V>, from: Option<V>, to: Option<V>) -> nat {
    row_count(table_row(table, from), to)
}

/// How often anything has followed `from`.
pub open spec fn total<V>(table: Table<V>, from: Option<V>) -> nat {
    row_total(table_row(table, from))
}

/// What holds of the table of every chain: the sentinel is registered, no state is
/// registered twice, every row is valid, and every successor is itself registered.
pub open spec fn valid_table<V>(table: Table<V>) -> bool {
    &&& has_state(table, None)
    &&& table_states(table).no_duplicates()
    &&& forall|i: int| 0 <= i < table.len() ==> valid_row(#[trigger] table[i].1)
    &&& forall|i: int, j: int|
        0 <= i < table.len() && 0 <= j < table[i].1.len() ==> has_state(
            table,
            #[trigger] table[i].1[j].0,
        )
}

/// The table of a chain that was never fed: the sentinel alone, with an empty row.
pub open spec fn empty_table<V>() -> Table<V> {
    seq![(None, Seq::empty())]
}

/// In a table without a state registered twice, the row of the state at `i` is the row
/// stored at `i`.
pub proof fn lemma_table_row_at<V>(table: Table<V>, i: int)
    requires
        table_states(table).no_duplicates(),
        0 <= i < table.len(),
    ensures
        has_state(table, table[i].0),
        table_row(table, table[i].0) == table[i].1,
{
    let states = table_states(table);
    assert(states[i] == table[i].0);
    let k = states.index_of(table[i].0);
    assert(states[k] == states[i]);
}

/// The state in which a walk stands after `i` tokens of `path`, having started at `from`.
pub open spec fn walk_state<V>(from: Option<V>, path: Seq<V>, i: int) -> Option<V> {
    if i <= 0 {
        from
    } else {
        Some(path[i - 1])
    }
}

/// Whether `path` can be walked from `from`: every token of it has been counted as a
/// successor of the state before it.
pub open spec fn is_walk<V>(table: Table<V>, from: Option<V>, path: Seq<V>) -> bool {
    forall|i: int|
        0 <= i < path.len() ==> count(table, walk_state(from, path, i), Some(#[trigger] path[i]))
            > 0
}

/// Whether a walk can end in `state`: nothing has followed it, or the sentinel has.
pub open spec fn can_end<V>(table: Table<V>, state: Option<V>) -> bool {
    total(table, state) == 0 || count(table, state, None) > 0
}

/// Whether `path` is the result of a generation that started at `from`: it can be
/// walked, and it ends where a walk can end, unless it was cut off at `usize::MAX` tokens.
pub open spec fn walked<V>(table: Table<V>, from: Option<V>, path: Seq<V>) -> bool {
    &&& is_walk(table, from, path)
    &&& path.len() < usize::MAX ==> can_end(table, walk_state(from, path, path.len() as int))
}

/// A walk can be extended by a token that has followed its last state.
pub proof fn lemma_walk_push<V>(table: Table<V>, from: Option<V>, path: Seq<V>, token: V)
    requires
        is_walk(table, from, path),
        count(table, walk_state(from, path, path.len() as int), Some(token)) > 0,
    ensures
        is_walk(table, from, path.push(token)),
{
    let longer = path.push(token);
    assert forall|i: int| 0 <= i < longer.len() implies count(
        table,
        walk_state(from, longer, i),
        Some(#[trigger] longer[i]),
    ) > 0 by {
        if i < path.len() {
            assert(longer[i] == path[i]);
            assert(walk_state(from, longer, i) == walk_state(from, path, i));
        }
    }
}

} // verus!
