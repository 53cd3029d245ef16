//! Generators that hand out one generated sequence after the other.
//!
//! They are no `Iterator`s of std: `next` is a method of their own.

use vstd::prelude::*;
use std::rc::Rc;
use crate::chain::{handle_views, Chain};
use crate::table::walked;
use crate::text::generated_text;

verus! {

/// Hands out a given number of generated sequences.
pub struct SizedChainIterator<'a, T> {
    chain: &'a Chain<T>,
    size: usize,
}

/// Hands out generated sequences without end.
pub struct InfiniteChainIterator<'a, T> {
    chain: &'a Chain<T>,
}

/// Hands out a given number of generated texts.
pub struct SizedChainStringIterator<'a> {
    inner: SizedChainIterator<'a, String>,
}

/// Hands out generated texts without end.
pub struct InfiniteChainStringIterator<'a> {
    inner: InfiniteChainIterator<'a, String>,
}

impl<'a, T: View> SizedChainIterator<'a, T> {
    /// The chain that is walked.
    pub closed spec fn chain(&self) -> Chain<T> {
        *self.chain
    }

    /// How many sequences are still to come.
    pub closed spec fn remaining(&self) -> nat {
        self.size as nat
    }

    /// The next sequence, as long as one is left.
    pub fn next(&mut self) -> (item: Option<Vec<Rc<T>>>)
        requires
            old(self).chain().wf(),
        ensures
            final(self).chain() == old(self).chain(),
            old(self).remaining() == 0 ==> item is None && final(self).remaining() == 0,
            old(self).remaining() > 0 ==> final(self).remaining() == old(self).remaining() - 1,
            old(self).remaining() > 0 ==> item is Some && walked(
                old(self).chain()@,
                None,
                handle_views(item->0@),
            ),
    {
        if self.size > 0 {
            self.size = self.size - 1;
            Some(self.chain.generate())
        } else {
            None
        }
    }

    /// The number of sequences that are still to come, as the lower and the upper bound.
    pub fn size_hint(&self) -> (hint: (usize, Option<usize>))
        ensures
            hint.0 == self.remaining(),
            hint.1 == Some(hint.0),
    {
        (self.size, Some(self.size))
    }

    /// All sequences that are still to come.
    pub fn collect(self) -> (items: Vec<Vec<Rc<T>>>)
        requires
            self.chain().wf(),
        ensures
            items@.len() == self.remaining(),
            forall|i: int|
                0 <= i < items@.len() ==> walked(
                    self.chain()@,
                    None,
                    handle_views((#[trigger] items@[i])@),
                ),
    {
        let mut items: Vec<Vec<Rc<T>>> = Vec::new();
        let mut i: usize = 0;
        while i < self.size
            invariant
                self.chain.wf(),
                i <= self.size,
                items@.len() == i,
                forall|k: int|
                    0 <= k < items@.len() ==> walked(
                        self.chain@,
                        None,
                        handle_views((#[trigger] items@[k])@),
                    ),
            decreases self.size - i,
        {
            items.push(self.chain.generate());
            i = i + 1;
        }
        items
    }
}

impl<'a, T: View> InfiniteChainIterator<'a, T> {
    /// The chain that is walked.
    pub closed spec fn chain(&self) -> Chain<T> {
        *self.chain
    }

    /// The next sequence: there always is one.
    pub fn next(&mut self) -> (item: Option<Vec<Rc<T>>>)
        requires
            old(self).chain().wf(),
        ensures
            final(self).chain() == old(self).chain(),
            item is Some,
            walked(old(self).chain()@, None, handle_views(item->0@)),
    {
        Some(self.chain.generate())
    }

    /// No bound is known on the number of sequences: zero at least, and no upper bound.
    pub fn size_hint(&self) -> (hint: (usize, Option<usize>))
        ensures
            hint.0 == 0,
            hint.1 is None,
    {
        (0, None)
    }
}

impl<'a> SizedChainStringIterator<'a> {
    /// The chain that is walked.
    pub closed spec fn chain(&self) -> Chain<String> {
        self.inner.chain()
    }

    /// How many texts are still to come.
    pub closed spec fn remaining(&self) -> nat {
        self.inner.remaining()
    }

    /// The next text, as long as one is left.
    pub fn next(&mut self) -> (item: Option<String>)
        requires
            old(self).chain().wf(),
        ensures
            final(self).chain() == old(self).chain(),
            old(self).remaining() == 0 ==> item is None && final(self).remaining() == 0,
            old(self).remaining() > 0 ==> final(self).remaining() == old(self).remaining() - 1,
            old(self).remaining() > 0 ==> item is Some && generated_text(
                old(self).chain()@,
                item->0@,
            ),
    {
        match self.inner.next() {
            Some(words) => Some(Chain::vec_to_string(words)),
            None => None,
        }
    }

    /// The number of texts that are still to come, as the lower and the upper bound.
    pub fn size_hint(&self) -> (hint: (usize, Option<usize>))
        ensures
            hint.0 == self.remaining(),
            hint.1 == Some(hint.0),
    {
        self.inner.size_hint()
    }

    /// All texts that are still to come.
    pub fn collect(self) -> (items: Vec<String>)
        requires
            self.chain().wf(),
        ensures
            items@.len() == self.remaining(),
            forall|i: int|
                0 <= i < items@.len() ==> generated_text(self.chain()@, (#[trigger] items@[i])@),
    {
        let mut items: Vec<String> = Vec::new();
        let mut inner = self.inner;
        loop
            invariant
                inner.chain() == self.inner.chain(),
                inner.chain().wf(),
                items@.len() + inner.remaining() == self.inner.remaining(),
                forall|k: int|
                    0 <= k < items@.len() ==> generated_text(
                        self.inner.chain()@,
                        (#[trigger] items@[k])@,
                    ),
            ensures
                items@.len() == self.inner.remaining(),
            decreases inner.remaining(),
        {
            match inner.next() {
                Some(words) => {
                    items.push(Chain::vec_to_string(words));
                },
                None => {
                    break ;
                },
            }
        }
        items
    }
}

impl<'a> InfiniteChainStringIterator<'a> {
    /// The chain that is walked.
    pub closed spec fn chain(&self) -> Chain<String> {
        self.inner.chain()
    }

    /// The next text: there always is one.
    pub fn next(&mut self) -> (item: Option<String>)
        requires
            old(self).chain().wf(),
        ensures
            final(self).chain() == old(self).chain(),
            item is Some,
            generated_text(old(self).chain()@, item->0@),
    {
        match self.inner.next() {
            Some(words) => Some(Chain::vec_to_string(words)),
            None => None,
        }
    }

    /// No bound is known on the number of texts: zero at least, and no upper bound.
    pub fn size_hint(&self) -> (hint: (usize, Option<usize>))
        ensures
            hint.0 == 0,
            hint.1 is None,
    {
        self.inner.size_hint()
    }
}

impl<T: View> Chain<T> {
    /// A generator of sequences without end.
    pub fn iter(&self) -> (it: InfiniteChainIterator<'_, T>)
        ensures
            it.chain() == *self,
    {
        InfiniteChainIterator { chain: self }
    }

    /// A generator of `size` sequences.
    pub fn iter_for(&self, size: usize) -> (it: SizedChainIterator<'_, T>)
        ensures
            it.chain() == *self,
            it.remaining() == size,
    {
        SizedChainIterator { chain: self, size }
    }
}

impl Chain<String> {
    /// A generator of texts without end.
    pub fn str_iter(&self) -> (it: InfiniteChainStringIterator<'_>)
        ensures
            it.chain() == *self,
    {
        InfiniteChainStringIterator { inner: self.iter() }
    }

    /// A generator of `size` texts.
    pub fn str_iter_for(&self, size: usize) -> (it: SizedChainStringIterator<'_>)
        ensures
            it.chain() == *self,
            it.remaining() == size,
    {
        SizedChainStringIterator { inner: self.iter_for(size) }
    }
}

} // verus!
