//! The handle through which a sequence is used: every operation comes in a
//! form that returns a new version and in a form that changes the receiver.

use crate::iter::Iter;
use crate::layout::Layout;
use crate::raw_seq::RawSeq;
use crate::sharing::{exact_clone, make_mut};
use std::sync::Arc;
use vstd::prelude::*;

verus! {

/// An element behind a reference count.  A clone is another pointer to the
/// same element.
pub struct Shared<A> {
    pub value: Arc<A>,
}

impl<A> View for Shared<A> {
    type V = A;

    /// The element itself.
    open spec fn view(&self) -> A {
        *self.value
    }
}

impl<A> Clone for Shared<A> {
    /// Another pointer to the same element.
    fn clone(&self) -> (r: Self)
        ensures
            r == *self,
    {
        Shared { value: self.value.clone() }
    }
}

/// Shared elements clone exactly.
pub proof fn lemma_shared_exact<A>()
    ensures
        exact_clone::<Shared<A>>(),
{
}

/// The elements that `items` point to.
pub open spec fn values<A>(items: Seq<Shared<A>>) -> Seq<A> {
    Seq::new(items.len(), |i: int| items[i]@)
}

/// The shared elements behind the pointers of `items`.
pub open spec fn shared<A>(items: Seq<Arc<A>>) -> Seq<Shared<A>> {
    Seq::new(items.len(), |i: int| Shared { value: items[i] })
}

/// A persistent sequence.  A clone shares every chunk with the sequence it
/// was cloned from.
pub struct SharedSeq<A> {
    spine: Arc<RawSeq<Shared<A>>>,
}

impl<A> View for SharedSeq<A> {
    type V = Seq<A>;

    /// The elements, first to last.
    open spec fn view(&self) -> Seq<A> {
        values(self.layout().flat())
    }
}

impl<A> SharedSeq<A> {
    /// The contents of each slot of the spine.
    pub closed spec fn layout(&self) -> Layout<Shared<A>> {
        self.spine.layout()
    }

    /// The invariant of the spine holds.
    pub open spec fn wf(&self) -> bool {
        self.layout().wf()
    }

    /// The empty sequence.
    pub fn new() -> (r: Self)
        ensures
            r.wf(),
            r@ == Seq::<A>::empty(),
            r.layout() == Layout::<Shared<A>>::empty(),
    {
        let r = SharedSeq { spine: Arc::new(RawSeq::new()) };
        assert(r@ =~= Seq::<A>::empty());
        r
    }

    /// How many elements the sequence holds.
    pub fn len(&self) -> (r: usize)
        requires
            self.wf(),
        ensures
            r == self@.len(),
    {
        self.spine.len()
    }

    /// Whether the sequence holds no element.
    pub fn is_empty(&self) -> (r: bool)
        requires
            self.wf(),
        ensures
            r == (self@.len() == 0),
    {
        self.len() == 0
    }

    /// A version with `value` in front.
    pub fn push_front(&self, value: Arc<A>) -> (r: Self)
        requires
            self.wf(),
            self@.len() < usize::MAX,
        ensures
            r.wf(),
            r@ == seq![*value] + self@,
            r.layout() == self.layout().push_front((Shared { value })),
    {
        let mut seq = (*self.spine).clone();
        proof {
            lemma_shared_exact::<A>();
        }
        seq.push_front(Shared { value });
        let r = SharedSeq { spine: Arc::new(seq) };
        assert(r@ =~= seq![*value] + self@);
        r
    }

    /// Puts `value` in front.
    pub fn push_front_mut(&mut self, value: Arc<A>)
        requires
            old(self).wf(),
            old(self)@.len() < usize::MAX,
        ensures
            final(self).wf(),
            final(self)@ == seq![*value] + old(self)@,
            final(self).layout() == old(self).layout().push_front((Shared { value })),
    {
        proof {
            lemma_shared_exact::<A>();
        }
        let seq = make_mut(&mut self.spine);
        seq.push_front(Shared { value });
        assert(self@ =~= seq![*value] + old(self)@);
    }

    /// A version with `value` at the back.
    pub fn push_back(&self, value: Arc<A>) -> (r: Self)
        requires
            self.wf(),
            self@.len() < usize::MAX,
        ensures
            r.wf(),
            r@ == self@.push(*value),
            r.layout() == self.layout().push_back((Shared { value })),
    {
        let mut seq = (*self.spine).clone();
        proof {
            lemma_shared_exact::<A>();
        }
        seq.push_back(Shared { value });
        let r = SharedSeq { spine: Arc::new(seq) };
        assert(r@ =~= self@.push(*value));
        r
    }

    /// Puts `value` at the back.
    pub fn push_back_mut(&mut self, value: Arc<A>)
        requires
            old(self).wf(),
            old(self)@.len() < usize::MAX,
        ensures
            final(self).wf(),
            final(self)@ == old(self)@.push(*value),
            final(self).layout() == old(self).layout().push_back((Shared { value })),
    {
        proof {
            lemma_shared_exact::<A>();
        }
        let seq = make_mut(&mut self.spine);
        seq.push_back(Shared { value });
        assert(self@ =~= old(self)@.push(*value));
    }

    /// The first element and a version without it, or `None` for an empty
    /// sequence.
    pub fn pop_front(&self) -> (r: Option<(Arc<A>, Self)>)
        requires
            self.wf(),
        ensures
            r.is_some() == (self@.len() > 0),
            r.is_some() ==> *r.unwrap().0 == self@.first() && r.unwrap().1.wf() && r.unwrap().1@
                == self@.drop_first(),
            r.is_some() ==> r.unwrap().1.layout() == self.layout().pop_front().1,
    {
        let mut seq = (*self.spine).clone();
        proof {
            lemma_shared_exact::<A>();
        }
        match seq.pop_front() {
            Some(v) => {
                let rest = SharedSeq { spine: Arc::new(seq) };
                assert(rest@ =~= self@.drop_first());
                Some((v.value, rest))
            },
            None => None,
        }
    }

    /// Takes the first element off, or returns `None` for an empty
    /// sequence.
    pub fn pop_front_mut(&mut self) -> (r: Option<Arc<A>>)
        requires
            old(self).wf(),
        ensures
            final(self).wf(),
            r.is_some() == (old(self)@.len() > 0),
            r.is_some() ==> *r.unwrap() == old(self)@.first() && final(self)@ == old(
                self,
            )@.drop_first(),
            r.is_some() ==> final(self).layout() == old(self).layout().pop_front().1,
            r.is_none() ==> final(self).layout() == old(self).layout(),
    {
        proof {
            lemma_shared_exact::<A>();
        }
        let seq = make_mut(&mut self.spine);
        match seq.pop_front() {
            Some(v) => {
                assert(self@ =~= old(self)@.drop_first());
                Some(v.value)
            },
            None => None,
        }
    }

    /// The last element and a version without it, or `None` for an empty
    /// sequence.
    pub fn pop_back(&self) -> (r: Option<(Arc<A>, Self)>)
        requires
            self.wf(),
        ensures
            r.is_some() == (self@.len() > 0),
            r.is_some() ==> *r.unwrap().0 == self@.last() && r.unwrap().1.wf() && r.unwrap().1@
                == self@.drop_last(),
            r.is_some() ==> r.unwrap().1.layout() == self.layout().pop_back().1,
    {
        let mut seq = (*self.spine).clone();
        proof {
            lemma_shared_exact::<A>();
        }
        match seq.pop_back() {
            Some(v) => {
                let rest = SharedSeq { spine: Arc::new(seq) };
                assert(rest@ =~= self@.drop_last());
                Some((v.value, rest))
            },
            None => None,
        }
    }

    /// Takes the last element off, or returns `None` for an empty sequence.
    pub fn pop_back_mut(&mut self) -> (r: Option<Arc<A>>)
        requires
            old(self).wf(),
        ensures
            final(self).wf(),
            r.is_some() == (old(self)@.len() > 0),
            r.is_some() ==> *r.unwrap() == old(self)@.last() && final(self)@ == old(
                self,
            )@.drop_last(),
            r.is_some() ==> final(self).layout() == old(self).layout().pop_back().1,
            r.is_none() ==> final(self).layout() == old(self).layout(),
    {
        proof {
            lemma_shared_exact::<A>();
        }
        let seq = make_mut(&mut self.spine);
        match seq.pop_back() {
            Some(v) => {
                assert(self@ =~= old(self)@.drop_last());
                Some(v.value)
            },
            None => None,
        }
    }

    /// A version with the elements of `other` behind those of `self`.
    pub fn concat(&self, other: &Self) -> (r: Self)
        requires
            self.wf(),
            other.wf(),
            self@.len() + other@.len() <= usize::MAX,
        ensures
            r.wf(),
            r@ == self@ + other@,
            r.layout() == self.layout().concat(other.layout()),
    {
        let mut seq = (*self.spine).clone();
        proof {
            lemma_shared_exact::<A>();
        }
        seq.concat((*other.spine).clone());
        let r = SharedSeq { spine: Arc::new(seq) };
        assert(r@ =~= self@ + other@);
        r
    }

    /// Appends the elements of `other`.
    pub fn concat_mut(&mut self, other: &Self)
        requires
            old(self).wf(),
            other.wf(),
            old(self)@.len() + other@.len() <= usize::MAX,
        ensures
            final(self).wf(),
            final(self)@ == old(self)@ + other@,
            final(self).layout() == old(self).layout().concat(other.layout()),
    {
        proof {
            lemma_shared_exact::<A>();
        }
        let seq = make_mut(&mut self.spine);
        seq.concat((*other.spine).clone());
        assert(self@ =~= old(self)@ + other@);
    }

    /// The elements before `index` as one sequence, and those from `index`
    /// on as another.  `index` is the place of an element: a split at the
    /// length of the sequence is not offered.
    pub fn split(&self, index: usize) -> (r: (Self, Self))
        requires
            self.wf(),
            index < self@.len(),
        ensures
            r.0.wf(),
            r.1.wf(),
            r.0@ == self@.take(index as int),
            r.1@ == self@.skip(index as int),
            r.0.layout() == self.layout().split(index as int).0,
            r.1.layout() == self.layout().split(index as int).1,
    {
        proof {
            lemma_shared_exact::<A>();
        }
        let (seq1, seq2) = self.spine.split(index);
        let r = (SharedSeq { spine: Arc::new(seq1) }, SharedSeq { spine: Arc::new(seq2) });
        assert(r.0@ =~= self@.take(index as int));
        assert(r.1@ =~= self@.skip(index as int));
        r
    }

    /// The sequence of the elements of `items`, pushed to the back one
    /// after the other.
    pub fn from_iter(items: Vec<Arc<A>>) -> (r: Self)
        ensures
            r.wf(),
            r@ == values(shared(items@)),
            r.layout() == Layout::from_seq(shared(items@)),
    {
        let mut spine: RawSeq<Shared<A>> = RawSeq::new();
        let n = items.len();
        proof {
            lemma_shared_exact::<A>();
        }
        for item in it: items
            invariant
                spine.wf(),
                n == items@.len(),
                it.seq() == items@,
                spine@.len() == it.index(),
                exact_clone::<Shared<A>>(),
                spine.layout() == Layout::from_seq(shared(items@.take(it.index() as int))),
        {
            proof {
                let next = shared(items@.take(it.index() + 1));
                assert(next.drop_last() =~= shared(items@.take(it.index() as int)));
                assert(next.last() == Shared { value: item });
            }
            spine.push_back(Shared { value: item });
        }
        proof {
            assert(items@.take(items@.len() as int) =~= items@);
            Layout::lemma_from_seq(shared(items@));
        }
        SharedSeq { spine: Arc::new(spine) }
    }

    /// A traversal of this version.
    pub fn iter(&self) -> (r: Iter<Shared<A>>)
        requires
            self.wf(),
        ensures
            r.wf(),
            values(r@) == self@,
    {
        Iter::new(&self.spine)
    }
}

impl<A> Default for SharedSeq<A> {
    fn default() -> (r: Self)
        ensures
            r.wf(),
            r@ == Seq::<A>::empty(),
    {
        Self::new()
    }
}

impl<A> Clone for SharedSeq<A> {
    /// A second handle on the same version.
    fn clone(&self) -> (r: Self)
        ensures
            r == *self,
    {
        SharedSeq { spine: self.spine.clone() }
    }
}

} // verus!
