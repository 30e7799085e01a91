//! Bounded buffers of elements, and the list of shared buffers that forms
//! the middle of a sequence.

use crate::sharing::{copied, exact_clone, lemma_copied_exact};
use std::sync::Arc;
use vstd::prelude::*;

verus! {

/// The most elements a chunk holds.
pub const CHUNK_SIZE: usize = 32;

/// An ordered buffer of at most `CHUNK_SIZE` elements.
pub struct Chunk<A> {
    values: Vec<A>,
}

impl<A> View for Chunk<A> {
    type V = Seq<A>;

    /// The elements, first to last.
    closed spec fn view(&self) -> Seq<A> {
        self.values@
    }
}

impl<A> Chunk<A> {
    /// The chunk is within its capacity.
    pub open spec fn wf(&self) -> bool {
        self@.len() <= CHUNK_SIZE
    }

    /// An empty chunk with room for a full one.
    pub fn new() -> (r: Self)
        ensures
            r@ == Seq::<A>::empty(),
            r.wf(),
    {
        Chunk { values: Vec::with_capacity(CHUNK_SIZE) }
    }

    /// How many elements the chunk holds.
    pub fn len(&self) -> (r: usize)
        ensures
            r == self@.len(),
    {
        self.values.len()
    }

    /// Whether the chunk holds no element.
    pub fn is_empty(&self) -> (r: bool)
        ensures
            r == (self@.len() == 0),
    {
        self.len() == 0
    }

    /// Whether the chunk holds `CHUNK_SIZE` elements.
    pub fn is_full(&self) -> (r: bool)
        ensures
            r == (self@.len() == CHUNK_SIZE),
    {
        self.len() == CHUNK_SIZE
    }

    /// A reference to the element at `index`.
    pub fn get(&self, index: usize) -> (r: &A)
        requires
            index < self@.len(),
        ensures
            *r == self@[index as int],
    {
        &self.values[index]
    }

    /// Puts `value` before the other elements.  The chunk must not be full.
    pub fn push_front(&mut self, value: A)
        requires
            old(self)@.len() < CHUNK_SIZE,
        ensures
            final(self)@ == seq![value] + old(self)@,
            final(self).wf(),
    {
        self.values.insert(0, value);
        assert(self.values@ =~= seq![value] + old(self).values@);
    }

    /// Puts `value` behind the other elements.  The chunk must not be full.
    pub fn push_back(&mut self, value: A)
        requires
            old(self)@.len() < CHUNK_SIZE,
        ensures
            final(self)@ == old(self)@.push(value),
            final(self).wf(),
    {
        self.values.push(value)
    }

    /// Takes the first element out.  The chunk must not be empty.
    pub fn pop_front(&mut self) -> (r: A)
        requires
            old(self)@.len() > 0,
        ensures
            r == old(self)@.first(),
            final(self)@ == old(self)@.drop_first(),
    {
        let r = self.values.remove(0);
        assert(self.values@ =~= old(self).values@.drop_first());
        r
    }

    /// Takes the last element out.  The chunk must not be empty.
    pub fn pop_back(&mut self) -> (r: A)
        requires
            old(self)@.len() > 0,
        ensures
            r == old(self)@.last(),
            final(self)@ == old(self)@.drop_last(),
    {
        let r = self.values.pop();
        assert(self.values@ =~= old(self).values@.drop_last());
        r.unwrap()
    }
}

impl<A: Clone> Chunk<A> {
    /// Clones of the elements before `index`, and of those from `index` on.
    pub fn split(&self, index: usize) -> (r: (Self, Self))
        requires
            index < self@.len(),
        ensures
            copied(self@.take(index as int), r.0@),
            copied(self@.skip(index as int), r.1@),
            exact_clone::<A>() ==> r.0@ == self@.take(index as int) && r.1@ == self@.skip(
                index as int,
            ),
    {
        let mut left = Self::new();
        let mut right = Self::new();
        let n = self.values.len();
        let mut i: usize = 0;
        while i < index
            invariant
                i <= index < n,
                n == self.values@.len(),
                copied(self.values@.take(i as int), left.values@),
            decreases index - i,
        {
            left.values.push(self.values[i].clone());
            i += 1;
        }
        while i < n
            invariant
                index <= i <= n,
                n == self.values@.len(),
                copied(self.values@.subrange(index as int, i as int), right.values@),
            decreases n - i,
        {
            right.values.push(self.values[i].clone());
            i += 1;
        }
        proof {
            assert(self.values@.subrange(index as int, n as int) =~= self.values@.skip(
                index as int,
            ));
            if exact_clone::<A>() {
                lemma_copied_exact(self.values@.take(index as int), left.values@);
                lemma_copied_exact(self.values@.skip(index as int), right.values@);
            }
        }
        (left, right)
    }

    /// Appends clones of the elements of `other`.
    pub fn extend(&mut self, other: &Chunk<A>)
        requires
            old(self)@.len() + other@.len() <= CHUNK_SIZE,
        ensures
            copied(old(self)@ + other@, final(self)@),
            final(self)@.take(old(self)@.len() as int) == old(self)@,
            exact_clone::<A>() ==> final(self)@ == old(self)@ + other@,
            final(self).wf(),
    {
        self.values.extend_from_slice(other.values.as_slice());
        proof {
            assert(self.values@.take(old(self).values@.len() as int) =~= old(self).values@);
            if exact_clone::<A>() {
                lemma_copied_exact(old(self).values@ + other.values@, self.values@);
            }
        }
    }
}

impl<A> Default for Chunk<A> {
    fn default() -> (r: Self)
        ensures
            r@ == Seq::<A>::empty(),
    {
        Self::new()
    }
}

impl<A: Clone> Clone for Chunk<A> {
    /// A chunk of clones of the elements.
    fn clone(&self) -> (r: Self)
        ensures
            copied(self@, r@),
    {
        Chunk { values: self.values.clone() }
    }
}

/// The elements of each chunk of `chunks`.
pub open spec fn contents<A>(chunks: Seq<Arc<Chunk<A>>>) -> Seq<Seq<A>> {
    Seq::new(chunks.len(), |i: int| chunks[i]@)
}

} // verus!
