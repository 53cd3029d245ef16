//! The frequency distribution over the successors of one state, and the sampler on it.

use vstd::prelude::*;
use crate::row::{
    lemma_bump_valid, lemma_prefix_total_agrees, lemma_prefix_total_monotonic, lemma_row_count_absent, lemma_row_count_at, picks,
    prefix_total, row_bump, row_count, row_keys, row_total, valid_row,
};

verus! {

/// How often each successor state followed one state.
///
/// States are named by their number in the chain that owns the distribution. The
/// entries keep the order in which the successors were first recorded, so that a draw
/// always selects the same successor.
#[derive(Debug)]
pub struct Distribution {
    entries: Vec<(usize, usize)>,
}

impl View for Distribution {
    type V = Seq<(usize, nat)>;

    closed spec fn view(&self) -> Seq<(usize, nat)> {
        Seq::new(self.entries@.len(), |i: int| (self.entries@[i].0, self.entries@[i].1 as nat))
    }
}

impl Distribution {
    /// The invariant of a distribution: one entry per successor, and a total that fits
    /// a machine word.
    pub open spec fn wf(&self) -> bool {
        valid_row(self@)
    }

    /// A distribution without entries.
    pub fn new() -> (d: Distribution)
        ensures
            d@ == Seq::<(usize, nat)>::empty(),
            d.wf(),
    {
        let d = Distribution { entries: Vec::new() };
        assert(row_keys(d@) =~= Seq::<usize>::empty());
        d
    }

    /// The number of successors with an entry.
    pub fn len(&self) -> (n: usize)
        ensures
            n == self@.len(),
    {
        self.entries.len()
    }

    /// The successor and the count of entry `j`.
    pub fn entry(&self, j: usize) -> (e: (usize, usize))
        requires
            j < self@.len(),
        ensures
            e.0 == self@[j as int].0,
            e.1 == self@[j as int].1,
    {
        self.entries[j]
    }

    /// The sum of all counts.
    pub fn total(&self) -> (t: usize)
        requires
            self.wf(),
        ensures
            t == row_total(self@),
    {
        let mut t: usize = 0;
        let mut i: usize = 0;
        while i < self.entries.len()
            invariant
                i <= self.entries.len(),
                self.wf(),
                t == prefix_total(self@, i as int),
            decreases self.entries.len() - i,
        {
            proof {
                lemma_prefix_total_monotonic(self@, i + 1, self@.len() as int);
            }
            t = t + self.entries[i].1;
            i = i + 1;
        }
        t
    }

    /// The position of the entry of `state`, if it has one.
    pub fn position(&self, state: usize) -> (p: Option<usize>)
        ensures
            match p {
                Some(j) => j < self@.len() && self@[j as int].0 == state,
                None => !row_keys(self@).contains(state),
            },
    {
        let mut i: usize = 0;
        while i < self.entries.len()
            invariant
                i <= self.entries.len(),
                forall|k: int| 0 <= k < i ==> self@[k].0 != state,
            decreases self.entries.len() - i,
        {
            if self.entries[i].0 == state {
                return Some(i);
            }
            i = i + 1;
        }
        assert forall|k: int| 0 <= k < row_keys(self@).len() implies row_keys(self@)[k]
            != state by {}
        None
    }

    /// How often `state` was recorded.
    pub fn count(&self, state: usize) -> (c: usize)
        requires
            self.wf(),
        ensures
            c == row_count(self@, state),
    {
        match self.position(state) {
            Some(j) => {
                proof {
                    lemma_row_count_at(self@, j as int);
                }
                self.entries[j].1
            },
            None => {
                proof {
                    assert forall|i: int| 0 <= i < self@.len() implies self@[i].0 != state by {
                        assert(row_keys(self@)[i] == self@[i].0);
                    }
                    lemma_row_count_absent(self@, state);
                }
                0
            },
        }
    }

    /// Records one more observation of `state` as a successor.
    pub fn record(&mut self, state: usize)
        requires
            old(self).wf(),
            row_total(old(self)@) < usize::MAX,
        ensures
            final(self)@ == row_bump(old(self)@, state),
            final(self).wf(),
    {
        let ghost before = self@;
        match self.position(state) {
            Some(j) => {
                proof {
                    assert(row_keys(before)[j as int] == state);
                    let i = row_keys(before).index_of(state);
                    assert(row_keys(before)[i] == state);
                    lemma_prefix_total_monotonic(before, j + 1, before.len() as int);
                }
                let c = self.entries[j].1;
                self.entries[j] = (state, c + 1);
                proof {
                    lemma_bump_valid(before, state);
                }
            },
            None => {
                self.entries.push((state, 1));
                proof {
                    assert(self@ =~= before.push((state, 1nat)));
                    lemma_bump_valid(before, state);
                }
            },
        }
    }

    /// Appends the entry of a successor that has none yet.
    pub fn insert(&mut self, state: usize, count: usize)
        requires
            old(self).wf(),
            !row_keys(old(self)@).contains(state),
            row_total(old(self)@) + count <= usize::MAX,
        ensures
            final(self)@ == old(self)@.push((state, count as nat)),
            final(self).wf(),
    {
        let ghost before = self@;
        self.entries.push((state, count));
        proof {
            let after = before.push((state, count as nat));
            assert(self@ =~= after);
            assert(row_keys(after) =~= row_keys(before).push(state));
            lemma_prefix_total_agrees(before, after, before.len() as int);
        }
    }

    /// The successor that the number `draw` selects: the first entry at which the running
    /// sum of the counts exceeds `draw`.
    pub fn pick(&self, draw: usize) -> (state: usize)
        requires
            self.wf(),
            draw < row_total(self@),
        ensures
            exists|j: int| picks(self@, draw as int, j) && self@[j].0 == state,
    {
        let mut i: usize = 0;
        let mut sum: usize = 0;
        loop
            invariant
                self.wf(),
                draw < row_total(self@),
                i < self.entries.len(),
                sum == prefix_total(self@, i as int),
                sum <= draw,
            decreases self.entries.len() - i,
        {
            proof {
                lemma_prefix_total_monotonic(self@, i + 1, self@.len() as int);
            }
            sum = sum + self.entries[i].1;
            if sum > draw {
                assert(picks(self@, draw as int, i as int));
                return self.entries[i].0;
            }
            i = i + 1;
        }
    }
}

} // verus!
