//! What sequences of operations on a layout do to the elements it holds.

use crate::layout::Layout;
use vstd::prelude::*;

verus! {

impl<A> Layout<A> {
    /// The layout reached from the empty one by putting the elements of
    /// `items` in front, first to last.
    pub open spec fn from_seq_front(items: Seq<A>) -> Self
        decreases items.len(),
    {
        if items.len() == 0 {
            Self::empty()
        } else {
            Self::from_seq_front(items.drop_last()).push_front(items.last())
        }
    }

    /// The elements that `n` pops from the front yield, in the order in
    /// which they come, and the layout that is left.
    pub open spec fn pop_front_n(self, n: nat) -> (Seq<A>, Self)
        decreases n,
    {
        if n == 0 {
            (Seq::empty(), self)
        } else {
            let (value, rest) = self.pop_front();
            let (values, last) = rest.pop_front_n((n - 1) as nat);
            (seq![value] + values, last)
        }
    }

    /// The elements that `n` pops from the back yield, in the order in
    /// which they come, and the layout that is left.
    pub open spec fn pop_back_n(self, n: nat) -> (Seq<A>, Self)
        decreases n,
    {
        if n == 0 {
            (Seq::empty(), self)
        } else {
            let (value, rest) = self.pop_back();
            let (values, last) = rest.pop_back_n((n - 1) as nat);
            (seq![value] + values, last)
        }
    }

    /// Elements put in front one after the other are held in the reverse
    /// order, in a well-formed layout.
    pub proof fn lemma_from_seq_front(items: Seq<A>)
        requires
            items.len() <= usize::MAX,
        ensures
            Self::from_seq_front(items).wf(),
            Self::from_seq_front(items).flat() == items.reverse(),
            Self::from_seq_front(items).length == items.len(),
        decreases items.len(),
    {
        if items.len() == 0 {
            Self::lemma_from_seq(items);
            assert(Self::empty().flat() =~= items.reverse());
        } else {
            let before = items.drop_last();
            Self::lemma_from_seq_front(before);
            Self::from_seq_front(before).lemma_push_front(items.last());
            assert(seq![items.last()] + before.reverse() =~= items.reverse());
        }
    }

    /// `n` pops from the front yield the first `n` elements in order, and
    /// leave a well-formed layout of the others.
    pub proof fn lemma_pop_front_n(self, n: nat)
        requires
            self.wf(),
            n <= self.length,
        ensures
            self.pop_front_n(n).0 == self.flat().take(n as int),
            self.pop_front_n(n).1.wf(),
            self.pop_front_n(n).1.flat() == self.flat().skip(n as int),
            self.pop_front_n(n).1.length == self.length - n,
        decreases n,
    {
        self.lemma_flat_len();
        if n == 0 {
            assert(self.flat().take(0) =~= Seq::<A>::empty());
            assert(self.flat().skip(0) =~= self.flat());
        } else {
            self.lemma_pop_front();
            let (value, rest) = self.pop_front();
            rest.lemma_flat_len();
            rest.lemma_pop_front_n((n - 1) as nat);
            let (values, last) = rest.pop_front_n((n - 1) as nat);
            assert(seq![value] + values =~= self.flat().take(n as int));
            assert(rest.flat().skip(n - 1) =~= self.flat().skip(n as int));
        }
    }

    /// `n` pops from the back yield the last `n` elements, the last one
    /// first, and leave a well-formed layout of the others.
    pub proof fn lemma_pop_back_n(self, n: nat)
        requires
            self.wf(),
            n <= self.length,
        ensures
            self.pop_back_n(n).0 == self.flat().skip(self.length - n).reverse(),
            self.pop_back_n(n).1.wf(),
            self.pop_back_n(n).1.flat() == self.flat().take(self.length - n),
            self.pop_back_n(n).1.length == self.length - n,
        decreases n,
    {
        self.lemma_flat_len();
        if n == 0 {
            assert(self.flat().skip(self.length as int).reverse() =~= Seq::<A>::empty());
            assert(self.flat().take(self.length as int) =~= self.flat());
        } else {
            self.lemma_pop_back();
            let (value, rest) = self.pop_back();
            rest.lemma_flat_len();
            rest.lemma_pop_back_n((n - 1) as nat);
            let (values, last) = rest.pop_back_n((n - 1) as nat);
            assert(seq![value] + values =~= self.flat().skip(self.length - n).reverse());
            assert(rest.flat().take(rest.length - (n - 1)) =~= self.flat().take(
                self.length - n,
            ));
        }
    }

    /// First in, first out: elements pushed to the back one after the
    /// other come out of the front in the order in which they went in,
    /// and nothing is left.
    pub proof fn theorem_back_to_front(items: Seq<A>)
        requires
            items.len() <= usize::MAX,
        ensures
            Self::from_seq(items).pop_front_n(items.len()) == (items, Self::empty()),
    {
        let filled = Self::from_seq(items);
        Self::lemma_from_seq(items);
        filled.lemma_pop_front_n(items.len());
        let (values, last) = filled.pop_front_n(items.len());
        last.lemma_empty_state();
        assert(values =~= items);
    }

    /// Elements pushed to the front one after the other come out of the
    /// back in the order in which they went in, and nothing is left.
    pub proof fn theorem_front_to_back(items: Seq<A>)
        requires
            items.len() <= usize::MAX,
        ensures
            Self::from_seq_front(items).pop_back_n(items.len()) == (items, Self::empty()),
    {
        let filled = Self::from_seq_front(items);
        Self::lemma_from_seq_front(items);
        filled.lemma_pop_back_n(items.len());
        let (values, last) = filled.pop_back_n(items.len());
        last.lemma_empty_state();
        assert(items.reverse().skip(0) =~= items.reverse());
        assert(items.reverse().reverse() =~= items);
    }

    /// A sequence built from a list of elements and split at `index` gives
    /// two well-formed sequences: one of the `index` elements before it,
    /// one of the others.
    pub proof fn theorem_split(items: Seq<A>, index: int)
        requires
            items.len() <= usize::MAX,
            0 <= index < items.len(),
        ensures
            Self::from_seq(items).split(index).0.wf(),
            Self::from_seq(items).split(index).1.wf(),
            Self::from_seq(items).split(index).0.flat() == items.take(index),
            Self::from_seq(items).split(index).1.flat() == items.skip(index),
            Self::from_seq(items).split(index).0.length == index,
            Self::from_seq(items).split(index).1.length == items.len() - index,
    {
        Self::lemma_from_seq(items);
        Self::from_seq(items).lemma_split(index);
        Self::from_seq(items).split(index).0.lemma_flat_len();
        Self::from_seq(items).split(index).1.lemma_flat_len();
    }

    /// The concatenation of two sequences built from lists of elements
    /// holds the elements of the first list, then those of the second.
    pub proof fn theorem_concat(first: Seq<A>, second: Seq<A>)
        requires
            first.len() + second.len() <= usize::MAX,
        ensures
            Self::from_seq(first).concat(Self::from_seq(second)).wf(),
            Self::from_seq(first).concat(Self::from_seq(second)).flat() == first + second,
            Self::from_seq(first).concat(Self::from_seq(second)).length == first.len()
                + second.len(),
    {
        Self::lemma_from_seq(first);
        Self::lemma_from_seq(second);
        Self::from_seq(first).lemma_concat(Self::from_seq(second));
        Self::from_seq(first).concat(Self::from_seq(second)).lemma_flat_len();
    }

    /// The two halves of a split, concatenated, hold the elements that the
    /// sequence held.
    pub proof fn theorem_split_concat(items: Seq<A>, index: int)
        requires
            items.len() <= usize::MAX,
            0 <= index < items.len(),
        ensures
            Self::from_seq(items).split(index).0.concat(
                Self::from_seq(items).split(index).1,
            ).wf(),
            Self::from_seq(items).split(index).0.concat(
                Self::from_seq(items).split(index).1,
            ).flat() == items,
    {
        Self::theorem_split(items, index);
        let (left, right) = Self::from_seq(items).split(index);
        left.lemma_concat(right);
        assert(items.take(index) + items.skip(index) =~= items);
    }

    /// The halves of any well-formed layout, concatenated, hold the
    /// elements that the layout held.
    pub proof fn lemma_split_concat(self, index: int)
        requires
            self.wf(),
            0 <= index < self.length,
        ensures
            self.split(index).0.concat(self.split(index).1).wf(),
            self.split(index).0.concat(self.split(index).1).flat() == self.flat(),
    {
        self.lemma_split(index);
        self.lemma_flat_len();
        let (left, right) = self.split(index);
        left.lemma_flat_len();
        right.lemma_flat_len();
        left.lemma_concat(right);
        assert(self.flat().take(index) + self.flat().skip(index) =~= self.flat());
    }
}

} // verus!
