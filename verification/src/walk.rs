//! Walking the chain: the generation of token sequences.

use vstd::prelude::*;
use std::rc::Rc;
use crate::chain::{eq_decides_view, handle_views, Chain, Token};
use crate::random::{RandomSource, ThreadSource};
use crate::table::{
    can_end, has_state, is_walk, lemma_walk_push, table_states, walk_state, walked, Table,
};

verus! {

impl<T: View> Chain<T> {
    /// Walks on from the state with number `from` and appends the tokens to `out`.
    fn walk<R: RandomSource>(&self, from: usize, out: Vec<Rc<T>>, source: &mut R) -> (r: Vec<
        Rc<T>,
    >)
        requires
            self.wf(),
            from < self@.len(),
        ensures
            r@.len() >= out@.len(),
            r@.take(out@.len() as int) == out@,
            is_walk(self@, self@[from as int].0, handle_views(r@.skip(out@.len() as int))),
            r@.len() < usize::MAX ==> can_end(
                self@,
                walk_state(
                    self@[from as int].0,
                    handle_views(r@.skip(out@.len() as int)),
                    r@.len() - out@.len(),
                ),
            ),
    {
        let ghost first = self@[from as int].0;
        let ghost m = out@.len() as int;
        let ghost given = out@;
        let ghost path: Seq<T::V> = Seq::empty();
        let mut out = out;
        let mut cur = from;
        let mut done = false;
        while !done && out.len() < usize::MAX
            invariant
                self.wf(),
                cur < self@.len(),
                out@.len() == m + path.len(),
                forall|i: int| 0 <= i < m ==> out@[i] == given[i],
                m == given.len(),
                forall|k: int| m <= k < out@.len() ==> (#[trigger] out@[k])@ == path[k - m],
                is_walk(self@, first, path),
                self@[cur as int].0 == walk_state(first, path, path.len() as int),
                done ==> can_end(self@, self@[cur as int].0),
            decreases
                    usize::MAX - out@.len() + if done {
                        0int
                    } else {
                        1int
                    },
        {
            let bound = self.total_of(cur);
            if bound == 0 {
                done = true;
            } else {
                let draw = source.below(bound);
                let next = self.step(cur, draw);
                match self.token_of(next) {
                    None => {
                        done = true;
                    },
                    Some(handle) => {
                        proof {
                            lemma_walk_push(self@, first, path, handle@);
                            path = path.push(handle@);
                        }
                        out.push(handle);
                        cur = next;
                    },
                }
            }
        }
        out
    }

    /// Generates a sequence of tokens with numbers from `source`.
    ///
    /// The walk starts at the sentinel. It ends where the sentinel is drawn, or where
    /// nothing has followed the current state. The result is cut off where it holds
    /// `usize::MAX` tokens.
    pub fn generate_with<R: RandomSource>(&self, source: &mut R) -> (tokens: Vec<Rc<T>>)
        requires
            self.wf(),
        ensures
            walked(self@, None, handle_views(tokens@)),
    {
        let tokens = self.walk(self.start_state(), Vec::new(), source);
        proof {
            assert(tokens@.skip(0) =~= tokens@);
        }
        tokens
    }

    /// Generates a sequence of tokens with the random numbers of the current thread.
    pub fn generate(&self) -> (tokens: Vec<Rc<T>>)
        requires
            self.wf(),
        ensures
            walked(self@, None, handle_views(tokens@)),
    {
        let mut source = ThreadSource::new();
        self.generate_with(&mut source)
    }
}

impl<T: Token> Chain<T> {
    /// Generates a sequence that starts with `token`, with numbers from `source`.
    ///
    /// For a token that was never fed the result is empty. Otherwise the token comes
    /// first, and the walk goes on from its state as in [`Chain::generate_with`].
    pub fn generate_from_token_with<R: RandomSource>(&self, token: T, source: &mut R) -> (tokens:
        Vec<Rc<T>>)
        requires
            self.wf(),
            eq_decides_view::<T>(),
        ensures
            started(self@, token@, handle_views(tokens@)),
    {
        match self.state_of(&token) {
            None => Vec::new(),
            Some(state) => {
                match self.token_of(state) {
                    None => Vec::new(),
                    Some(handle) => {
                        let mut first: Vec<Rc<T>> = Vec::new();
                        first.push(handle);
                        let ghost given = first@;
                        let tokens = self.walk(state, first, source);
                        proof {
                            assert(table_states(self@)[state as int] == Some(token@));
                            lemma_views_skip(given, tokens@);
                        }
                        tokens
                    },
                }
            },
        }
    }

    /// Generates a sequence that starts with `token`, with the random numbers of the
    /// current thread. For a token that was never fed the result is empty.
    pub fn generate_from_token(&self, token: T) -> (tokens: Vec<Rc<T>>)
        requires
            self.wf(),
            eq_decides_view::<T>(),
        ensures
            started(self@, token@, handle_views(tokens@)),
    {
        let mut source = ThreadSource::new();
        self.generate_from_token_with(token, &mut source)
    }
}

/// The views behind the first handle are the views of the handles behind the first.
proof fn lemma_views_skip<T: View>(given: Seq<Rc<T>>, handles: Seq<Rc<T>>)
    requires
        given.len() == 1,
        handles.len() >= 1,
        handles.take(1) == given,
    ensures
        handle_views(handles)[0] == given[0]@,
        handle_views(handles).skip(1) == handle_views(handles.skip(1)),
        walk_state(
            Some(given[0]@),
            handle_views(handles.skip(1)),
            handles.len() - 1,
        ) == Some(handle_views(handles).last()),
{
}

/// Whether `path` is the result of a generation that was asked to start with `token`:
/// empty if the token is not registered, and else the token followed by a walk from it,
/// which ends where a walk can end unless the result was cut off at `usize::MAX` tokens.
pub open spec fn started<V>(table: Table<V>, token: V, path: Seq<V>) -> bool {
    if has_state(table, Some(token)) {
        &&& path.len() > 0
        &&& path[0] == token
        &&& is_walk(table, Some(token), path.skip(1))
        &&& path.len() < usize::MAX ==> can_end(table, Some(path.last()))
    } else {
        path.len() == 0
    }
}

} // verus!
