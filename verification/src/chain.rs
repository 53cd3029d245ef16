//! The chain: the transition table with its tokens, fed with sequences and walked.

use vstd::prelude::*;
use std::rc::Rc;
use crate::distribution::Distribution;
use crate::row::{
    lemma_bump_keys, lemma_bump_total, lemma_prefix_total_agrees, lemma_prefix_total_monotonic,
    lemma_row_count_at, picks, prefix_total, row_bump, row_keys, row_total, valid_row,
};
use crate::training::{
    as_states, augmented, bump_all, fed, first_seen, followers, lemma_bump_all_count,
    lemma_bump_all_keys, lemma_bump_all_total, lemma_followers_absent, lemma_followers_occurrences,
    lemma_followers_step, transitions,
};
use crate::table::{
    count, empty_table, has_state, lemma_table_row_at, successors, table_row, table_states, total,
    valid_table, Row, Table,
};

verus! {

/// What the chain asks of a token type: a view, and `==`. Every type that has both is a
/// token type.
pub trait Token: View + PartialEq {

}

impl<T: View + PartialEq> Token for T {

}

/// Whether `==` on `T` tells exactly whether two tokens have the same view. The chain
/// tells tokens apart by `==`, and its contracts speak of their views.
pub open spec fn eq_decides_view<T: Token>() -> bool {
    forall|a: T, b: T, r: bool| #[trigger]
        call_ensures(<T as PartialEq>::eq, (&a, &b), r) ==> r == (a@ == b@)
}

/// Whether two tokens are equal.
pub fn same_token<T: Token>(a: &T, b: &T) -> (r: bool)
    requires
        eq_decides_view::<T>(),
    ensures
        r == (a@ == b@),
{
    // Called as a function value, `==` is known by what it ensures for `T`.
    let eq = <T as PartialEq>::eq;
    eq(a, b)
}

/// Calls `Rc::clone`, which makes another pointer to the same allocation: the result
/// points to the value that `handle` points to.
#[verifier::external_body]
fn share<T>(handle: &Rc<T>) -> (r: Rc<T>)
    ensures
        r == *handle,
{
    handle.clone()
}

/// The state that a handle stands for: the view of its token, or the sentinel.
pub open spec fn handle_key<T: View>(handle: Option<Rc<T>>) -> Option<T::V> {
    match handle {
        Some(token) => Some(token@),
        None => None,
    }
}

/// The state that entry `id` of `states` stands for.
spec fn key_at<T: View>(states: Seq<Option<Rc<T>>>, id: int) -> Option<T::V> {
    handle_key(states[id])
}

/// The states that `states` stands for.
spec fn keys_of<T: View>(states: Seq<Option<Rc<T>>>) -> Seq<Option<T::V>> {
    Seq::new(states.len(), |i: int| key_at(states, i))
}

/// A row of state numbers as a row of states.
spec fn named<T: View>(states: Seq<Option<Rc<T>>>, row: Seq<(usize, nat)>) -> Row<
    T::V,
> {
    Seq::new(row.len(), |j: int| (key_at(states, row[j].0 as int), row[j].1))
}

/// A Markov chain over tokens of type `T`.
///
/// Every token that was fed is stored once and shared by all who refer to it. The states
/// are numbered in the order of their registration; the rows refer to them by number.
/// The view of a chain is its table.
///
/// Tokens are told apart by `==` alone. To find the state of a token, the chain compares
/// it with the registered tokens one after the other.
#[derive(Debug)]
pub struct Chain<T> {
    states: Vec<Option<Rc<T>>>,
    rows: Vec<Distribution>,
    start: usize,
}

impl<T: View> View for Chain<T> {
    type V = Table<T::V>;

    closed spec fn view(&self) -> Table<T::V> {
        Seq::new(
            self.states@.len(),
            |i: int| (key_at(self.states@, i), named(self.states@, self.rows@[i]@)),
        )
    }
}

impl<T: View> Chain<T> {
    /// The invariant of the representation. It makes the table valid.
    pub closed spec fn wf(&self) -> bool {
        &&& self.states@.len() == self.rows@.len()
        &&& self.start < self.states@.len()
        &&& self.states@[self.start as int] is None
        &&& keys_of(self.states@).no_duplicates()
        &&& forall|i: int| 0 <= i < self.rows@.len() ==> (#[trigger] self.rows@[i]).wf()
        &&& forall|i: int, j: int|
            0 <= i < self.rows@.len() && 0 <= j < self.rows@[i]@.len() ==> (
            #[trigger] self.rows@[i]@[j]).0 < self.states@.len()
    }

    /// The table of a well-formed chain is valid.
    pub proof fn lemma_valid(&self)
        requires
            self.wf(),
        ensures
            valid_table(self@),
    {
        let table = self@;
        let states = self.states@;
        assert(table_states(table) =~= keys_of(states));
        assert(keys_of(states)[self.start as int] == None::<T::V>);
        assert forall|i: int| 0 <= i < table.len() implies valid_row(#[trigger] table[i].1) by {
            lemma_named_valid(states, self.rows@[i]@);
        }
        assert forall|i: int, j: int|
            0 <= i < table.len() && 0 <= j < table[i].1.len() implies has_state(
            table,
            #[trigger] table[i].1[j].0,
        ) by {
            let id = self.rows@[i]@[j].0 as int;
            assert(keys_of(states)[id] == table[i].1[j].0);
        }
    }

    /// A chain that was never fed.
    pub fn new() -> (chain: Chain<T>)
        ensures
            chain.wf(),
            chain@ == empty_table::<T::V>(),
    {
        let mut states: Vec<Option<Rc<T>>> = Vec::new();
        states.push(None);
        let mut rows: Vec<Distribution> = Vec::new();
        rows.push(Distribution::new());
        let chain = Chain { states, rows, start: 0 };
        proof {
            assert(named(chain.states@, chain.rows@[0]@) =~= Seq::empty());
        }
        chain
    }

    /// Whether nothing has been fed: no state has followed the sentinel.
    pub fn is_empty(&self) -> (b: bool)
        requires
            self.wf(),
        ensures
            b == (total(self@, None) == 0),
    {
        proof {
            self.lemma_row(self.start as int);
        }
        self.rows[self.start].total() == 0
    }

    /// The row of the state with number `i`, as the table has it.
    proof fn lemma_row(&self, i: int)
        requires
            self.wf(),
            0 <= i < self.states@.len(),
        ensures
            has_state(self@, key_at(self.states@, i)),
            table_row(self@, key_at(self.states@, i)) == named(self.states@, self.rows@[i]@),
            row_total(named(self.states@, self.rows@[i]@)) == row_total(self.rows@[i]@),
            valid_row(named(self.states@, self.rows@[i]@)),
    {
        assert(table_states(self@) =~= keys_of(self.states@));
        lemma_table_row_at(self@, i);
        lemma_named_valid(self.states@, self.rows@[i]@);
    }
}

/// Naming the states of a valid row gives a valid row with the same total.
proof fn lemma_named_valid<T: View>(states: Seq<Option<Rc<T>>>, row: Seq<(usize, nat)>)
    requires
        keys_of(states).no_duplicates(),
        valid_row(row),
        forall|j: int| 0 <= j < row.len() ==> (#[trigger] row[j]).0 < states.len(),
    ensures
        valid_row(named(states, row)),
        row_total(named(states, row)) == row_total(row),
        forall|n: int|
            0 <= n <= row.len() ==> prefix_total(named(states, row), n) == prefix_total(row, n),
{
    let out = named(states, row);
    assert forall|n: int| 0 <= n <= row.len() implies prefix_total(out, n) == prefix_total(
        row,
        n,
    ) by {
        lemma_prefix_total_agrees(out, row, n);
    }
    assert forall|i: int, j: int|
        0 <= i < out.len() && 0 <= j < out.len() && i != j implies row_keys(out)[i] != row_keys(
        out,
    )[j] by {
        assert(row_keys(row)[i] != row_keys(row)[j]);
        let a = row[i].0 as int;
        let b = row[j].0 as int;
        assert(keys_of(states)[a] == key_at(states, a));
        assert(keys_of(states)[b] == key_at(states, b));
    }
}

/// The views of the tokens.
pub open spec fn token_views<T: View>(tokens: Seq<T>) -> Seq<T::V> {
    Seq::new(tokens.len(), |i: int| tokens[i]@)
}

impl<T: Token> Chain<T> {
    /// The number of the state of `token`, if it is registered.
    fn find_state(&self, token: &T) -> (r: Option<usize>)
        requires
            eq_decides_view::<T>(),
        ensures
            match r {
                Some(i) => i < self.states@.len() && key_at(self.states@, i as int) == Some(
                    token@,
                ),
                None => !keys_of(self.states@).contains(Some(token@)),
            },
    {
        let mut i: usize = 0;
        while i < self.states.len()
            invariant
                i <= self.states@.len(),
                eq_decides_view::<T>(),
                forall|k: int| 0 <= k < i ==> key_at(self.states@, k) != Some(token@),
            decreases self.states@.len() - i,
        {
            match &self.states[i] {
                Some(handle) => {
                    if same_token(&**handle, token) {
                        return Some(i);
                    }
                },
                None => {},
            }
            i = i + 1;
        }
        None
    }

    /// The number of the state of `token`, if the token was ever fed.
    pub fn state_of(&self, token: &T) -> (state: Option<usize>)
        requires
            eq_decides_view::<T>(),
        ensures
            match state {
                Some(i) => i < self@.len() && self@[i as int].0 == Some(token@),
                None => !has_state(self@, Some(token@)),
            },
    {
        proof {
            assert(table_states(self@) =~= keys_of(self.states@));
        }
        self.find_state(token)
    }

    /// Registers `token` unless it is registered, and returns the number of its state.
    fn intern(&mut self, token: T) -> (id: usize)
        requires
            old(self).wf(),
            eq_decides_view::<T>(),
        ensures
            final(self).wf(),
            final(self).start == old(self).start,
            id < final(self).states@.len(),
            key_at(final(self).states@, id as int) == Some(token@),
            keys_of(old(self).states@).contains(Some(token@)) ==> {
                &&& final(self).states@ == old(self).states@
                &&& final(self).rows@ == old(self).rows@
            },
            !keys_of(old(self).states@).contains(Some(token@)) ==> {
                &&& final(self).states@.len() == old(self).states@.len() + 1
                &&& final(self).states@.drop_last() == old(self).states@
                &&& final(self).rows@.drop_last() == old(self).rows@
                &&& final(self).rows@.last()@ == Seq::<(usize, nat)>::empty()
                &&& id == old(self).states@.len()
            },
    {
        match self.find_state(&token) {
            Some(id) => {
                assert(keys_of(self.states@)[id as int] == Some(token@));
                id
            },
            None => {
                let ghost before = *self;
                let id = self.states.len();
                self.states.push(Some(Rc::new(token)));
                self.rows.push(Distribution::new());
                proof {
                    assert forall|i: int, j: int|
                        0 <= i < keys_of(self.states@).len() && 0 <= j < keys_of(
                            self.states@,
                        ).len() && i != j implies keys_of(self.states@)[i] != keys_of(
                        self.states@,
                    )[j] by {
                        if i < id {
                            assert(keys_of(before.states@)[i] == keys_of(self.states@)[i]);
                        }
                        if j < id {
                            assert(keys_of(before.states@)[j] == keys_of(self.states@)[j]);
                        }
                    }
                }
                id
            },
        }
    }
}

impl<T: Token> Chain<T> {
    /// Registers every token that is not registered, and returns the numbers of the
    /// states of all of them, in order.
    fn register_all(&mut self, tokens: Vec<T>) -> (ids: Vec<usize>)
        requires
            old(self).wf(),
            eq_decides_view::<T>(),
        ensures
            final(self).wf(),
            final(self).start == old(self).start,
            extends(old(self).states@, old(self).rows@, final(self).states@, final(self).rows@),
            keys_of(final(self).states@) == first_seen(
                keys_of(old(self).states@),
                as_states(token_views(tokens@)),
            ),
            ids@.len() == tokens@.len(),
            forall|j: int|
                0 <= j < ids@.len() ==> (#[trigger] ids@[j]) < final(self).states@.len() && key_at(
                    final(self).states@,
                    ids@[j] as int,
                ) == Some(tokens@[j]@),
    {
        let ghost toks = tokens@;
        let ghost items = as_states(token_views(toks));
        let ghost states0 = self.states@;
        let ghost rows0 = self.rows@;
        let mut ids: Vec<usize> = Vec::new();
        for token in it: tokens
            invariant
                it.seq() == toks,
                items == as_states(token_views(toks)),
                eq_decides_view::<T>(),
                self.wf(),
                self.start == old(self).start,
                extends(states0, rows0, self.states@, self.rows@),
                keys_of(self.states@) == first_seen(keys_of(states0), items.take(it.index())),
                ids@.len() == it.index(),
                forall|j: int|
                    0 <= j < ids@.len() ==> (#[trigger] ids@[j]) < self.states@.len() && key_at(
                        self.states@,
                        ids@[j] as int,
                    ) == Some(toks[j]@),
        {
            let ghost k = it.index();
            let ghost states1 = self.states@;
            proof {
                assert(items.take(k + 1).drop_last() =~= items.take(k));
            }
            let id = self.intern(token);
            ids.push(id);
            proof {
                if !keys_of(states1).contains(Some(token@)) {
                    assert(keys_of(self.states@) =~= keys_of(states1).push(Some(token@)));
                    lemma_extends_push(states0, rows0, states1, self.states@, self.rows@);
                }
            }
        }
        proof {
            assert(items.take(toks.len() as int) =~= items);
        }
        ids
    }
}

/// The states and rows `(states, rows)` are `(states0, rows0)` followed by further states
/// with empty rows.
spec fn extends<T>(
    states0: Seq<Option<Rc<T>>>,
    rows0: Seq<Distribution>,
    states: Seq<Option<Rc<T>>>,
    rows: Seq<Distribution>,
) -> bool {
    &&& states0.len() <= states.len()
    &&& rows0.len() <= rows.len()
    &&& forall|i: int| 0 <= i < states0.len() ==> states[i] == states0[i]
    &&& forall|i: int| 0 <= i < rows0.len() ==> rows[i] == rows0[i]
    &&& forall|i: int| rows0.len() <= i < rows.len() ==> (#[trigger] rows[i])@ == Seq::<
        (usize, nat),
    >::empty()
}

proof fn lemma_extends_push<T>(
    states0: Seq<Option<Rc<T>>>,
    rows0: Seq<Distribution>,
    states1: Seq<Option<Rc<T>>>,
    states: Seq<Option<Rc<T>>>,
    rows: Seq<Distribution>,
)
    requires
        extends(states0, rows0, states1, rows.drop_last()),
        rows.len() > 0,
        states.len() > 0,
        states.drop_last() == states1,
        rows.last()@ == Seq::<(usize, nat)>::empty(),
    ensures
        extends(states0, rows0, states, rows),
{
    assert forall|i: int| rows0.len() <= i < rows.len() implies (#[trigger] rows[i])@ == Seq::<
        (usize, nat),
    >::empty() by {
        if i < rows.len() - 1 {
            assert(rows.drop_last()[i] == rows[i]);
        }
    }
}

/// Naming the states commutes with recording a successor.
proof fn lemma_named_bump<T: View>(states: Seq<Option<Rc<T>>>, row: Seq<(usize, nat)>, id: usize)
    requires
        keys_of(states).no_duplicates(),
        row_keys(row).no_duplicates(),
        forall|j: int| 0 <= j < row.len() ==> (#[trigger] row[j]).0 < states.len(),
        id < states.len(),
    ensures
        named(states, row_bump(row, id)) == row_bump(named(states, row), key_at(states, id as int)),
        forall|j: int|
            0 <= j < row_bump(row, id).len() ==> (#[trigger] row_bump(row, id)[j]).0
                < states.len(),
{
    let key = key_at(states, id as int);
    let out = named(states, row);
    assert forall|j: int| 0 <= j < row.len() implies (#[trigger] row_keys(out)[j] == key
        <==> row_keys(row)[j] == id) by {
        let a = row[j].0 as int;
        assert(keys_of(states)[a] == key_at(states, a));
        assert(keys_of(states)[id as int] == key);
    }
    if row_keys(row).contains(id) {
        let i = row_keys(row).index_of(id);
        assert(row_keys(out)[i] == key);
        let k = row_keys(out).index_of(key);
        assert(row_keys(row)[k] == id);
    } else {
        if row_keys(out).contains(key) {
            let k = row_keys(out).index_of(key);
            assert(row_keys(row)[k] == id);
        }
    }
}

impl<T: View> Chain<T> {
    /// Records every pair of neighbours of the path that `ids` stands for between two
    /// sentinels.
    fn record_path(&mut self, ids: &Vec<usize>, Ghost(path): Ghost<Seq<Option<T::V>>>)
        requires
            old(self).wf(),
            path.len() == ids@.len() + 2,
            path[0] == None::<T::V>,
            path[ids@.len() as int + 1] == None::<T::V>,
            forall|j: int|
                0 <= j < ids@.len() ==> (#[trigger] ids@[j]) < old(self).states@.len() && key_at(
                    old(self).states@,
                    ids@[j] as int,
                ) == path[j + 1],
            forall|s: int|
                0 <= s < old(self).rows@.len() ==> row_total((#[trigger] old(self).rows@[s])@)
                    + ids@.len() < usize::MAX,
        ensures
            final(self).wf(),
            final(self).start == old(self).start,
            final(self).states@ == old(self).states@,
            forall|s: int|
                0 <= s < final(self).states@.len() ==> named(
                    final(self).states@,
                    (#[trigger] final(self).rows@[s])@,
                ) == bump_all(
                    named(old(self).states@, old(self).rows@[s]@),
                    followers(path, key_at(old(self).states@, s)),
                ),
    {
        let ghost states = self.states@;
        let ghost rows0 = self.rows@;
        let n = ids.len();
        let mut p: usize = 0;
        assert(row_total(self.rows@[self.start as int]@) + n < usize::MAX);
        while p <= n
            invariant
                n == ids@.len(),
                n < usize::MAX,
                p <= n + 1,
                path.len() == n + 2,
                path[0] == None::<T::V>,
                path[n + 1] == None::<T::V>,
                self.wf(),
                self.start == old(self).start,
                self.states@ == states,
                rows0.len() == states.len(),
                forall|j: int|
                    0 <= j < ids@.len() ==> (#[trigger] ids@[j]) < states.len() && key_at(
                        states,
                        ids@[j] as int,
                    ) == path[j + 1],
                forall|s: int|
                    0 <= s < rows0.len() ==> row_total((#[trigger] rows0[s])@) + n < usize::MAX,
                forall|s: int|
                    0 <= s < states.len() ==> row_total((#[trigger] self.rows@[s])@) <= row_total(
                        rows0[s]@,
                    ) + p,
                forall|s: int|
                    0 <= s < states.len() ==> named(states, (#[trigger] self.rows@[s])@)
                        == bump_all(
                        named(states, rows0[s]@),
                        followers(path.take(p + 1), key_at(states, s)),
                    ),
            decreases n + 1 - p,
        {
            let from = if p == 0 {
                self.start
            } else {
                ids[p - 1]
            };
            let to = if p == n {
                self.start
            } else {
                ids[p]
            };
            let ghost rows1 = self.rows@;
            self.rows[from].record(to);
            proof {
                let before = rows1[from as int]@;
                lemma_bump_total(before, to);
                lemma_bump_keys(before, to);
                lemma_named_bump(states, before, to);
                assert forall|s: int| 0 <= s < states.len() implies named(
                    states,
                    (#[trigger] self.rows@[s])@,
                ) == bump_all(
                    named(states, rows0[s]@),
                    followers(path.take(p + 2), key_at(states, s)),
                ) by {
                    let a = key_at(states, s);
                    lemma_followers_step(path, p + 2, a);
                    assert(keys_of(states)[s] == a);
                    assert(keys_of(states)[from as int] == path[p as int]);
                    if s == from {
                        let f = followers(path.take(p + 1), a);
                        assert(f.push(path[p + 1]).drop_last() =~= f);
                    }
                }
            }
            p = p + 1;
        }
        proof {
            assert(path.take(n + 2) =~= path);
        }
    }
}

/// The row of `a` after a feed is its row before, with the followers of `a` recorded.
proof fn lemma_row_fed<T: View>(
    before: Chain<T>,
    mid: Chain<T>,
    after: Chain<T>,
    path: Seq<Option<T::V>>,
    a: Option<T::V>,
)
    requires
        before.wf(),
        mid.wf(),
        after.wf(),
        extends(before.states@, before.rows@, mid.states@, mid.rows@),
        after.states@ == mid.states@,
        forall|i: int| 0 <= i < path.len() ==> keys_of(mid.states@).contains(#[trigger] path[i]),
        forall|s: int|
            0 <= s < after.states@.len() ==> named(after.states@, (#[trigger] after.rows@[s])@)
                == bump_all(
                named(mid.states@, mid.rows@[s]@),
                followers(path, key_at(mid.states@, s)),
            ),
    ensures
        table_row(after@, a) == bump_all(table_row(before@, a), followers(path, a)),
        row_keys(table_row(before@, a)).no_duplicates(),
{
    let states = after.states@;
    let len0 = before.states@.len() as int;
    assert(table_states(after@) =~= keys_of(states));
    assert(table_states(before@) =~= keys_of(before.states@));
    if keys_of(states).contains(a) {
        let s = keys_of(states).index_of(a);
        after.lemma_row(s);
        mid.lemma_row(s);
        if s < len0 {
            before.lemma_row(s);
            assert(named(mid.states@, mid.rows@[s]@) =~= named(
                before.states@,
                before.rows@[s]@,
            )) by {
                assert forall|j: int| 0 <= j < before.rows@[s]@.len() implies key_at(
                    mid.states@,
                    before.rows@[s]@[j].0 as int,
                ) == key_at(before.states@, before.rows@[s]@[j].0 as int) by {
                    let id = before.rows@[s]@[j].0 as int;
                    assert(mid.states@[id] == before.states@[id]);
                }
            }
        } else {
            if keys_of(before.states@).contains(a) {
                let i = keys_of(before.states@).index_of(a);
                assert(keys_of(states)[i] == a);
            }
            assert(named(mid.states@, mid.rows@[s]@) =~= Seq::empty());
        }
    } else {
        if keys_of(before.states@).contains(a) {
            let i = keys_of(before.states@).index_of(a);
            assert(keys_of(states)[i] == a);
        }
        lemma_followers_absent(path, a);
    }
}

impl<T: Token> Chain<T> {
    /// Feeds the chain a sequence of tokens.
    ///
    /// An empty sequence changes nothing. Otherwise every token is registered, and every
    /// pair of neighbours in the sequence between two sentinels is counted once more.
    /// Later feeds add to the counts of earlier ones.
    ///
    /// No row may be so full that its total could leave the range of `usize`.
    pub fn feed(&mut self, tokens: Vec<T>) -> (chain: &mut Chain<T>)
        requires
            old(self).wf(),
            eq_decides_view::<T>(),
            forall|a: Option<T::V>| #[trigger] total(old(self)@, a) + tokens@.len() < usize::MAX,
        ensures
            chain.wf(),
            *final(self) == *final(chain),
            tokens@.len() == 0 ==> chain@ == old(self)@,
            tokens@.len() > 0 ==> fed(old(self)@, chain@, token_views(tokens@)),
    {
        if tokens.len() == 0 {
            return self;
        }
        let ghost before = *self;
        let ghost views = token_views(tokens@);
        let ghost path = augmented(views);
        let ids = self.register_all(tokens);
        let ghost mid = *self;
        proof {
            assert(total(before@, None) + views.len() < usize::MAX);
            assert forall|s: int| 0 <= s < mid.rows@.len() implies row_total(
                (#[trigger] mid.rows@[s])@,
            ) + ids@.len() < usize::MAX by {
                if s < before.rows@.len() {
                    before.lemma_row(s);
                    assert(total(before@, key_at(before.states@, s)) + views.len() < usize::MAX);
                }
            }
        }
        self.record_path(&ids, Ghost(path));
        proof {
            let after = *self;
            assert(keys_of(mid.states@)[mid.start as int] == None::<T::V>);
            assert forall|i: int| 0 <= i < path.len() implies keys_of(mid.states@).contains(
                #[trigger] path[i],
            ) by {
                if 1 <= i <= views.len() {
                    let id = ids@[i - 1] as int;
                    assert(keys_of(mid.states@)[id] == path[i]);
                }
            }
            assert(table_states(after@) =~= keys_of(after.states@));
            assert(table_states(before@) =~= keys_of(before.states@));
            assert forall|a: Option<T::V>| #[trigger]
                successors(after@, a) == first_seen(
                    successors(before@, a),
                    followers(path, a),
                ) by {
                lemma_row_fed(before, mid, after, path, a);
                lemma_bump_all_keys(table_row(before@, a), followers(path, a));
            }
            assert forall|a: Option<T::V>| #[trigger]
                total(after@, a) == total(before@, a) + followers(path, a).len() by {
                lemma_row_fed(before, mid, after, path, a);
                lemma_bump_all_total(table_row(before@, a), followers(path, a));
            }
            assert forall|a: Option<T::V>, b: Option<T::V>| #[trigger]
                count(after@, a, b) == count(before@, a, b) + transitions(path, a, b) by {
                lemma_row_fed(before, mid, after, path, a);
                lemma_bump_all_count(table_row(before@, a), followers(path, a), b);
                lemma_followers_occurrences(path, a, b);
            }
        }
        self
    }
}

/// The views of the tokens behind the handles.
pub open spec fn handle_views<T: View>(handles: Seq<Rc<T>>) -> Seq<T::V> {
    Seq::new(handles.len(), |i: int| handles[i]@)
}

impl<T: View> Chain<T> {
    /// The number of registered states, the sentinel among them.
    pub fn len(&self) -> (n: usize)
        ensures
            n == self@.len(),
    {
        self.states.len()
    }

    /// The number of the sentinel.
    pub fn start_state(&self) -> (state: usize)
        requires
            self.wf(),
        ensures
            state < self@.len(),
            self@[state as int].0 == None::<T::V>,
    {
        self.start
    }

    /// The token of the state with number `state`: `None` for the sentinel, and for a
    /// number that names no state.
    pub fn token_of(&self, state: usize) -> (token: Option<Rc<T>>)
        ensures
            match token {
                Some(handle) => state < self@.len() && self@[state as int].0 == Some(handle@),
                None => state >= self@.len() || self@[state as int].0 == None::<T::V>,
            },
    {
        if state < self.states.len() {
            match &self.states[state] {
                Some(handle) => Some(share(handle)),
                None => None,
            }
        } else {
            None
        }
    }

    /// How often anything has followed the state with number `state`.
    pub fn total_of(&self, state: usize) -> (t: usize)
        requires
            self.wf(),
            state < self@.len(),
        ensures
            t == total(self@, self@[state as int].0),
    {
        proof {
            self.lemma_row(state as int);
        }
        self.rows[state].total()
    }

    /// Whether a sequence of `n` tokens can be fed: whether every total leaves room for
    /// `n` more observations and one.
    pub fn can_feed(&self, n: usize) -> (ok: bool)
        requires
            self.wf(),
        ensures
            ok == (forall|a: Option<T::V>| #[trigger] total(self@, a) + n < usize::MAX),
    {
        let mut i: usize = 0;
        while i < self.rows.len()
            invariant
                self.wf(),
                i <= self.rows@.len(),
                forall|s: int| 0 <= s < i ==> row_total((#[trigger] self.rows@[s])@) + n < usize::MAX,
            decreases self.rows@.len() - i,
        {
            proof {
                self.lemma_row(i as int);
            }
            let t = self.rows[i].total();
            if n >= usize::MAX - t {
                assert(!(total(self@, key_at(self.states@, i as int)) + n < usize::MAX));
                return false;
            }
            i = i + 1;
        }
        proof {
            assert(row_total(self.rows@[self.start as int]@) + n < usize::MAX);
            assert forall|a: Option<T::V>| #[trigger] total(self@, a) + n < usize::MAX by {
                if has_state(self@, a) {
                    let s = table_states(self@).index_of(a);
                    self.lemma_row(s);
                }
            }
        }
        true
    }

    /// The state that follows `state` when the number `draw` is drawn: the first successor
    /// in the row of `state` at which the running sum of the counts exceeds `draw`.
    pub fn step(&self, state: usize, draw: usize) -> (next: usize)
        requires
            self.wf(),
            state < self@.len(),
            draw < total(self@, self@[state as int].0),
        ensures
            next < self@.len(),
            exists|j: int|
                picks(self@[state as int].1, draw as int, j) && self@[state as int].1[j].0
                    == self@[next as int].0,
            count(self@, self@[state as int].0, self@[next as int].0) > 0,
    {
        proof {
            self.lemma_row(state as int);
        }
        let next = self.rows[state].pick(draw);
        proof {
            let row = self.rows@[state as int]@;
            let out = self@[state as int].1;
            let j = choose|j: int| picks(row, draw as int, j) && row[j].0 == next;
            lemma_named_valid(self.states@, row);
            assert(picks(out, draw as int, j));
            lemma_row_count_at(out, j);
        }
        next
    }
}

/// The table as plain data: the states in order, each with its successors and their
/// counts. `None` stands for the sentinel.
pub type Snapshot<T> = Vec<(Option<Rc<T>>, Vec<(Option<Rc<T>>, usize)>)>;

/// A row of a snapshot as a row of states.
pub open spec fn snapshot_row<T: View>(row: Seq<(Option<Rc<T>>, usize)>) -> Row<T::V> {
    Seq::new(row.len(), |j: int| (handle_key(row[j].0), row[j].1 as nat))
}

/// The table that a snapshot describes.
pub open spec fn snapshot_table<T: View>(
    snapshot: Seq<(Option<Rc<T>>, Vec<(Option<Rc<T>>, usize)>)>,
) -> Table<T::V> {
    Seq::new(snapshot.len(), |i: int| (handle_key(snapshot[i].0), snapshot_row(snapshot[i].1@)))
}

/// Another handle to the same state.
fn share_state<T>(state: &Option<Rc<T>>) -> (r: Option<Rc<T>>)
    ensures
        r == *state,
{
    match state {
        Some(handle) => Some(share(handle)),
        None => None,
    }
}

/// The position in `states` of the state that `key` stands for, if it is there.
fn find_key<T: Token>(states: &Vec<Option<Rc<T>>>, key: &Option<Rc<T>>) -> (r: Option<
    usize,
>)
    requires
        eq_decides_view::<T>(),
    ensures
        match r {
            Some(i) => i < states@.len() && key_at(states@, i as int) == handle_key(*key),
            None => !keys_of(states@).contains(handle_key(*key)),
        },
{
    let mut i: usize = 0;
    while i < states.len()
        invariant
            i <= states@.len(),
            eq_decides_view::<T>(),
            forall|k: int| 0 <= k < i ==> key_at(states@, k) != handle_key(*key),
        decreases states@.len() - i,
    {
        let found = match (&states[i], key) {
            (Some(a), Some(b)) => same_token(&**a, &**b),
            (None, None) => true,
            _ => false,
        };
        if found {
            return Some(i);
        }
        i = i + 1;
    }
    None
}

/// Whether the entries of a snapshot can be a row of a table with the states `states`.
spec fn row_fits<T: View>(
    states: Seq<Option<Rc<T>>>,
    entries: Seq<(Option<Rc<T>>, usize)>,
) -> bool {
    &&& valid_row(snapshot_row(entries))
    &&& forall|j: int|
        0 <= j < entries.len() ==> keys_of(states).contains(
            (#[trigger] snapshot_row(entries)[j]).0,
        )
}

/// Reads one row of a snapshot: the distribution over the numbers of the states.
fn read_row<T: Token>(
    states: &Vec<Option<Rc<T>>>,
    entries: &Vec<(Option<Rc<T>>, usize)>,
) -> (r: Option<Distribution>)
    requires
        eq_decides_view::<T>(),
        keys_of(states@).no_duplicates(),
    ensures
        r is Some <==> row_fits(states@, entries@),
        r matches Some(d) ==> {
            &&& d.wf()
            &&& forall|j: int| 0 <= j < d@.len() ==> (#[trigger] d@[j]).0 < states@.len()
            &&& named(states@, d@) == snapshot_row(entries@)
        },
{
    let ghost target = snapshot_row(entries@);
    let mut row = Distribution::new();
    let mut sum: usize = 0;
    let mut j: usize = 0;
    while j < entries.len()
        invariant
            j <= entries@.len(),
            eq_decides_view::<T>(),
            keys_of(states@).no_duplicates(),
            target == snapshot_row(entries@),
            row.wf(),
            sum == row_total(row@),
            row@.len() == j,
            forall|k: int| 0 <= k < row@.len() ==> (#[trigger] row@[k]).0 < states@.len(),
            named(states@, row@) == target.take(j as int),
        decreases entries@.len() - j,
    {
        let ghost before = row@;
        let count = entries[j].1;
        proof {
            lemma_named_valid(states@, before);
            lemma_prefix_total_agrees(target.take(j as int), target, j as int);
            lemma_prefix_total_monotonic(target, j + 1, target.len() as int);
        }
        let id = match find_key(states, &entries[j].0) {
            Some(id) => id,
            None => {
                return None;
            },
        };
        match row.position(id) {
            Some(p) => {
                proof {
                    assert(named(states@, before)[p as int].0 == key_at(states@, id as int));
                    assert(row_keys(target)[p as int] == row_keys(target)[j as int]);
                }
                return None;
            },
            None => {},
        }
        if count > usize::MAX - sum {
            return None;
        }
        row.insert(id, count);
        sum = sum + count;
        proof {
            lemma_prefix_total_agrees(before, row@, j as int);
        }
        j = j + 1;
    }
    proof {
        assert(target.take(entries@.len() as int) =~= target);
        lemma_named_valid(states@, row@);
        assert forall|k: int| 0 <= k < entries@.len() implies keys_of(states@).contains(
            (#[trigger] target[k]).0,
        ) by {
            let id = row@[k].0 as int;
            assert(keys_of(states@)[id] == key_at(states@, id));
        }
    }
    Some(row)
}

impl<T: View> Chain<T> {
    /// The row of the state with number `i` as a row of a snapshot.
    fn snapshot_row_of(&self, i: usize) -> (row: Vec<(Option<Rc<T>>, usize)>)
        requires
            self.wf(),
            i < self.states@.len(),
        ensures
            snapshot_row(row@) == named(self.states@, self.rows@[i as int]@),
    {
        let mut row: Vec<(Option<Rc<T>>, usize)> = Vec::new();
        let n = self.rows[i].len();
        let mut j: usize = 0;
        let ghost target = named(self.states@, self.rows@[i as int]@);
        while j < n
            invariant
                self.wf(),
                i < self.states@.len(),
                n == self.rows@[i as int]@.len(),
                j <= n,
                target == named(self.states@, self.rows@[i as int]@),
                row@.len() == j,
                snapshot_row(row@) == target.take(j as int),
            decreases n - j,
        {
            let entry = self.rows[i].entry(j);
            let handle = share_state(&self.states[entry.0]);
            let ghost before = row@;
            row.push((handle, entry.1));
            proof {
                assert forall|k: int| 0 <= k <= j implies snapshot_row(row@)[k] == target[k] by {
                    if k < j {
                        assert(snapshot_row(before)[k] == target.take(j as int)[k]);
                    }
                }
            }
            j = j + 1;
        }
        row
    }

    /// The table as plain data: every state with its row, in the order of the table.
    /// The tokens are shared with the chain.
    pub fn snapshot(&self) -> (snapshot: Snapshot<T>)
        requires
            self.wf(),
        ensures
            snapshot_table(snapshot@) == self@,
    {
        let mut snapshot: Snapshot<T> = Vec::new();
        let n = self.states.len();
        let mut i: usize = 0;
        while i < n
            invariant
                self.wf(),
                n == self.states@.len(),
                i <= n,
                snapshot@.len() == i,
                snapshot_table(snapshot@) == self@.take(i as int),
            decreases n - i,
        {
            let row = self.snapshot_row_of(i);
            let handle = share_state(&self.states[i]);
            let ghost before = snapshot@;
            snapshot.push((handle, row));
            proof {
                assert forall|k: int| 0 <= k <= i implies snapshot_table(snapshot@)[k]
                    == self@[k] by {
                    if k < i {
                        assert(snapshot_table(before)[k] == self@.take(i as int)[k]);
                    }
                }
            }
            i = i + 1;
        }
        snapshot
    }
}

impl<T: Token> Chain<T> {
    /// Builds the chain whose table a snapshot describes.
    ///
    /// A snapshot describes a table if it registers the sentinel, registers no state
    /// twice, gives no state two entries in one row, names only registered states as
    /// successors, and holds no row whose total leaves the range of `usize`. For any
    /// other snapshot the result is `None`.
    pub fn from_snapshot(snapshot: Snapshot<T>) -> (chain: Option<Chain<T>>)
        requires
            eq_decides_view::<T>(),
        ensures
            chain is Some <==> valid_table(snapshot_table(snapshot@)),
            chain matches Some(c) ==> c.wf() && c@ == snapshot_table(snapshot@),
    {
        let ghost target = snapshot_table(snapshot@);
        let mut states: Vec<Option<Rc<T>>> = Vec::new();
        let mut start: Option<usize> = None;
        let n = snapshot.len();
        let mut i: usize = 0;
        while i < n
            invariant
                eq_decides_view::<T>(),
                n == snapshot@.len(),
                target == snapshot_table(snapshot@),
                i <= n,
                states@.len() == i,
                keys_of(states@) == table_states(target).take(i as int),
                keys_of(states@).no_duplicates(),
                match start {
                    Some(s) => s < i && states@[s as int] is None,
                    None => !keys_of(states@).contains(None),
                },
            decreases n - i,
        {
            let ghost before = states@;
            let key = &snapshot[i].0;
            match find_key(&states, key) {
                Some(k) => {
                    proof {
                        assert(keys_of(before)[k as int] == table_states(target)[k as int]);
                        assert(table_states(target)[i as int] == handle_key(*key));
                    }
                    return None;
                },
                None => {},
            }
            if key.is_none() {
                start = Some(i);
            }
            states.push(share_state(key));
            proof {
                assert(keys_of(states@) =~= keys_of(before).push(handle_key(*key)));
            }
            i = i + 1;
        }
        proof {
            assert(table_states(target).take(n as int) =~= table_states(target));
        }
        let start = match start {
            Some(s) => s,
            None => {
                return None;
            },
        };
        let mut rows: Vec<Distribution> = Vec::new();
        let mut i: usize = 0;
        while i < n
            invariant
                eq_decides_view::<T>(),
                n == snapshot@.len(),
                n == states@.len(),
                target == snapshot_table(snapshot@),
                keys_of(states@) == table_states(target),
                keys_of(states@).no_duplicates(),
                i <= n,
                rows@.len() == i,
                forall|k: int| 0 <= k < i ==> (#[trigger] rows@[k]).wf(),
                forall|k: int, j: int|
                    0 <= k < i && 0 <= j < rows@[k]@.len() ==> (#[trigger] rows@[k]@[j]).0
                        < states@.len(),
                forall|k: int| 0 <= k < i ==> named(states@, (#[trigger] rows@[k])@) == target[k].1,
            decreases n - i,
        {
            match read_row(&states, &snapshot[i].1) {
                Some(row) => {
                    rows.push(row);
                },
                None => {
                    proof {
                        let bad = target[i as int].1;
                        if valid_row(bad) {
                            let j = choose|j: int|
                                0 <= j < bad.len() && !keys_of(states@).contains(
                                    (#[trigger] bad[j]).0,
                                );
                            assert(!has_state(target, target[i as int].1[j].0));
                        }
                    }
                    return None;
                },
            }
            i = i + 1;
        }
        let chain = Chain { states, rows, start };
        proof {
            assert forall|k: int| 0 <= k < n implies chain@[k] == target[k] by {
                assert(keys_of(states@)[k] == table_states(target)[k]);
            }
            assert(chain@ =~= target);
            chain.lemma_valid();
        }
        Some(chain)
    }
}

} // verus!
