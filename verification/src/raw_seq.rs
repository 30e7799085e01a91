//! The spine of a sequence: two chunks at each end and a list of chunks
//! between them.

use crate::chunk::{contents, Chunk, CHUNK_SIZE};
use crate::layout::{
    chunks_wf, lemma_chunk_at, lemma_flatten_front, lemma_flatten_prefix_len,
    lemma_flatten_split, Layout,
};
use crate::descent::{
    chunks_descend, descends, lemma_chunks_descend_transitive, lemma_clone_descends,
    lemma_copied_descends, lemma_descends_exact, lemma_seq_descends_exact, seq_descends,
};
use crate::sharing::{copied, exact_clone, make_mut};
use std::mem::swap;
use std::sync::Arc;
use vstd::prelude::*;

verus! {

/// The chunks in the middle of a sequence, in order.  A clone of the list
/// holds the same chunks: it copies the pointers, never a chunk.
pub struct ChunkList<A> {
    items: Vec<Arc<Chunk<A>>>,
}

impl<A> ChunkList<A> {
    /// The chunks of the list.
    pub closed spec fn chunks(&self) -> Seq<Arc<Chunk<A>>> {
        self.items@
    }

    fn new() -> (r: Self)
        ensures
            r.items@ == Seq::<Arc<Chunk<A>>>::empty(),
    {
        ChunkList { items: Vec::new() }
    }
}

impl<A> Clone for ChunkList<A> {
    /// A list of pointers to the same chunks.
    fn clone(&self) -> (r: Self)
        ensures
            r.chunks() == self.chunks(),
    {
        let mut items: Vec<Arc<Chunk<A>>> = Vec::with_capacity(self.items.len());
        let n = self.items.len();
        let mut i: usize = 0;
        while i < n
            invariant
                i <= n,
                n == self.items@.len(),
                items@ == self.items@.take(i as int),
            decreases n - i,
        {
            items.push(self.items[i].clone());
            assert(items@ =~= self.items@.take(i + 1));
            i += 1;
        }
        assert(items@ =~= self.items@);
        ChunkList { items }
    }
}

/// One version of a sequence.
pub struct RawSeq<A> {
    length: usize,
    middle_length: usize,
    outer_f: Arc<Chunk<A>>,
    inner_f: Arc<Chunk<A>>,
    middle: Arc<ChunkList<A>>,
    inner_b: Arc<Chunk<A>>,
    outer_b: Arc<Chunk<A>>,
}

impl<A> View for RawSeq<A> {
    type V = Seq<A>;

    /// The elements, first to last.
    open spec fn view(&self) -> Seq<A> {
        self.layout().flat()
    }
}

impl<A> RawSeq<A> {
    /// The contents of each slot.
    pub closed spec fn layout(&self) -> Layout<A> {
        Layout {
            length: self.length as nat,
            middle_length: self.middle_length as nat,
            outer_f: self.outer_f@,
            inner_f: self.inner_f@,
            middle: contents(self.middle.items@),
            inner_b: self.inner_b@,
            outer_b: self.outer_b@,
        }
    }

    /// The invariant of the spine.
    pub open spec fn wf(&self) -> bool {
        self.layout().wf()
    }
}

impl<A: Clone> RawSeq<A> {
    /// The empty sequence: nothing in any slot.
    pub fn new() -> (r: Self)
        ensures
            r.wf(),
            r@ == Seq::<A>::empty(),
            r.layout() == Layout::<A>::empty(),
    {
        let r = RawSeq {
            length: 0,
            middle_length: 0,
            outer_f: Arc::new(Chunk::new()),
            inner_f: Arc::new(Chunk::new()),
            middle: Arc::new(ChunkList::new()),
            inner_b: Arc::new(Chunk::new()),
            outer_b: Arc::new(Chunk::new()),
        };
        proof {
            assert(r.layout() =~= Layout::<A>::empty());
            assert(r.layout().middle.flatten() =~= Seq::<A>::empty());
            assert(r@ =~= Seq::<A>::empty());
        }
        r
    }

    /// How many elements the sequence holds.
    pub fn len(&self) -> (r: usize)
        requires
            self.wf(),
        ensures
            r == self@.len(),
    {
        self.length
    }

    /// Whether the sequence holds no element.
    pub fn is_empty(&self) -> (r: bool)
        requires
            self.wf(),
        ensures
            r == (self@.len() == 0),
    {
        self.len() == 0
    }

    /// Puts `value` in front.  A full outer front chunk first becomes the
    /// inner one, and a full inner one moves to the front of the middle.
    pub fn push_front(&mut self, value: A)
        requires
            old(self).wf(),
            old(self)@.len() < usize::MAX,
        ensures
            final(self).wf(),
            final(self)@.len() == old(self)@.len() + 1,
            old(self).layout().push_front(value).descends_to(final(self).layout()),
            seq_descends(seq![value] + old(self)@, final(self)@),
            exact_clone::<A>() ==> final(self).layout() == old(self).layout().push_front(value),
            exact_clone::<A>() ==> final(self)@ == seq![value] + old(self)@,
    {
        if self.outer_f.is_full() {
            swap(&mut self.outer_f, &mut self.inner_f);
            if !self.outer_f.is_empty() {
                let mut chunk = Arc::new(Chunk::new());
                swap(&mut chunk, &mut self.outer_f);
                assert(chunk@.len() == CHUNK_SIZE);
                self.middle_length += chunk.len();
                let middle = make_mut(&mut self.middle);
                middle.items.insert(0, chunk);
                assert(contents(middle.items@) =~= seq![chunk@] + contents(
                    old(self).middle.items@,
                ));
            }
        }
        self.length += 1;
        let outer_f = make_mut(&mut self.outer_f);
        outer_f.push_front(value);
        proof {
            let expected = old(self).layout().push_front(value);
            let reached = self.layout();
            assert forall|i: int| 0 <= i < expected.outer_f.len() implies descends(
                expected.outer_f[i],
                #[trigger] reached.outer_f[i],
            ) by {
                if i > 0 {
                    lemma_clone_descends(expected.outer_f[i], reached.outer_f[i]);
                }
            }
            assert(expected.descends_to(reached));
            old(self).layout().lemma_push_front(value);
            expected.lemma_descends_flat(reached);
            if exact_clone::<A>() {
                expected.lemma_descends_exact(reached);
            }
        }
    }

    /// Puts `value` at the back.  A full outer back chunk first becomes the
    /// inner one, and a full inner one moves to the back of the middle.
    pub fn push_back(&mut self, value: A)
        requires
            old(self).wf(),
            old(self)@.len() < usize::MAX,
        ensures
            final(self).wf(),
            final(self)@.len() == old(self)@.len() + 1,
            old(self).layout().push_back(value).descends_to(final(self).layout()),
            seq_descends(old(self)@.push(value), final(self)@),
            exact_clone::<A>() ==> final(self).layout() == old(self).layout().push_back(value),
            exact_clone::<A>() ==> final(self)@ == old(self)@.push(value),
    {
        if self.outer_b.is_full() {
            swap(&mut self.outer_b, &mut self.inner_b);
            if !self.outer_b.is_empty() {
                let mut chunk = Arc::new(Chunk::new());
                swap(&mut chunk, &mut self.outer_b);
                assert(chunk@.len() == CHUNK_SIZE);
                self.middle_length += chunk.len();
                let middle = make_mut(&mut self.middle);
                middle.items.push(chunk);
                assert(contents(middle.items@) =~= contents(old(self).middle.items@).push(
                    chunk@,
                ));
            }
        }
        self.length += 1;
        let outer_b = make_mut(&mut self.outer_b);
        outer_b.push_back(value);
        proof {
            let expected = old(self).layout().push_back(value);
            let reached = self.layout();
            assert forall|i: int| 0 <= i < expected.outer_b.len() implies descends(
                expected.outer_b[i],
                #[trigger] reached.outer_b[i],
            ) by {
                if i < expected.outer_b.len() - 1 {
                    lemma_clone_descends(expected.outer_b[i], reached.outer_b[i]);
                }
            }
            assert(expected.descends_to(reached));
            old(self).layout().lemma_push_back(value);
            expected.lemma_descends_flat(reached);
            if exact_clone::<A>() {
                expected.lemma_descends_exact(reached);
            }
        }
    }

    /// Takes the first element off, or returns `None` for an empty
    /// sequence.  An empty outer front chunk is first refilled from the
    /// nearest slot behind it that holds anything.
    pub fn pop_front(&mut self) -> (r: Option<A>)
        requires
            old(self).wf(),
        ensures
            final(self).wf(),
            r.is_some() == (old(self)@.len() > 0),
            r.is_none() ==> *final(self) == *old(self),
            r.is_some() ==> final(self)@.len() == old(self)@.len() - 1,
            r.is_some() ==> descends(old(self).layout().pop_front().0, r.unwrap()) && old(
                self,
            ).layout().pop_front().1.descends_to(final(self).layout()),
            r.is_some() ==> descends(old(self)@.first(), r.unwrap()) && seq_descends(
                old(self)@.drop_first(),
                final(self)@,
            ),
            exact_clone::<A>() && r.is_some() ==> final(self).layout() == old(
                self,
            ).layout().pop_front().1,
            exact_clone::<A>() && r.is_some() ==> r == Some(old(self)@.first()) && final(self)@
                == old(self)@.drop_first(),
    {
        if self.is_empty() {
            return None;
        }
        if self.outer_f.is_empty() {
            if self.inner_f.is_empty() {
                if self.middle.items.is_empty() {
                    proof {
                        assert(contents(self.middle.items@) =~= Seq::<Seq<A>>::empty());
                    }
                    if self.inner_b.is_empty() {
                        swap(&mut self.outer_f, &mut self.outer_b);
                    } else {
                        swap(&mut self.outer_f, &mut self.inner_b);
                    }
                } else {
                    proof {
                        old(self).layout().lemma_refill_front();
                    }
                    let middle = make_mut(&mut self.middle);
                    let first = middle.items.remove(0);
                    assert(contents(middle.items@) =~= contents(
                        old(self).middle.items@,
                    ).drop_first());
                    self.outer_f = first;
                    self.middle_length -= self.outer_f.len();
                }
            } else {
                swap(&mut self.outer_f, &mut self.inner_f);
            }
        }
        self.length -= 1;
        let outer_f = make_mut(&mut self.outer_f);
        let value = outer_f.pop_front();
        proof {
            let expected = old(self).layout().pop_front();
            let reached = self.layout();
            let filled = old(self).layout().refill_front().outer_f;
            lemma_clone_descends(expected.0, value);
            assert forall|i: int| 0 <= i < expected.1.outer_f.len() implies descends(
                expected.1.outer_f[i],
                #[trigger] reached.outer_f[i],
            ) by {
                assert(expected.1.outer_f[i] == filled[i + 1]);
                lemma_clone_descends(expected.1.outer_f[i], reached.outer_f[i]);
            }
            assert(expected.1.descends_to(reached));
            old(self).layout().lemma_pop_front();
            expected.1.lemma_descends_flat(reached);
            if exact_clone::<A>() {
                expected.1.lemma_descends_exact(reached);
                lemma_descends_exact(expected.0, value);
            }
        }
        Some(value)
    }

    /// Takes the last element off, or returns `None` for an empty sequence.
    /// An empty outer back chunk is first refilled from the nearest slot
    /// before it that holds anything.
    pub fn pop_back(&mut self) -> (r: Option<A>)
        requires
            old(self).wf(),
        ensures
            final(self).wf(),
            r.is_some() == (old(self)@.len() > 0),
            r.is_none() ==> *final(self) == *old(self),
            r.is_some() ==> final(self)@.len() == old(self)@.len() - 1,
            r.is_some() ==> descends(old(self).layout().pop_back().0, r.unwrap()) && old(
                self,
            ).layout().pop_back().1.descends_to(final(self).layout()),
            r.is_some() ==> descends(old(self)@.last(), r.unwrap()) && seq_descends(
                old(self)@.drop_last(),
                final(self)@,
            ),
            exact_clone::<A>() && r.is_some() ==> final(self).layout() == old(
                self,
            ).layout().pop_back().1,
            exact_clone::<A>() && r.is_some() ==> r == Some(old(self)@.last()) && final(self)@
                == old(self)@.drop_last(),
    {
        if self.is_empty() {
            return None;
        }
        if self.outer_b.is_empty() {
            if self.inner_b.is_empty() {
                if self.middle.items.is_empty() {
                    proof {
                        assert(contents(self.middle.items@) =~= Seq::<Seq<A>>::empty());
                    }
                    if self.inner_f.is_empty() {
                        swap(&mut self.outer_b, &mut self.outer_f);
                    } else {
                        swap(&mut self.outer_b, &mut self.inner_f);
                    }
                } else {
                    proof {
                        old(self).layout().lemma_refill_back();
                    }
                    let middle = make_mut(&mut self.middle);
                    let last = middle.items.pop();
                    assert(contents(middle.items@) =~= contents(
                        old(self).middle.items@,
                    ).drop_last());
                    self.outer_b = last.unwrap();
                    self.middle_length -= self.outer_b.len();
                }
            } else {
                swap(&mut self.outer_b, &mut self.inner_b);
            }
        }
        self.length -= 1;
        let outer_b = make_mut(&mut self.outer_b);
        let value = outer_b.pop_back();
        proof {
            let expected = old(self).layout().pop_back();
            let reached = self.layout();
            let filled = old(self).layout().refill_back().outer_b;
            lemma_clone_descends(expected.0, value);
            assert forall|i: int| 0 <= i < expected.1.outer_b.len() implies descends(
                expected.1.outer_b[i],
                #[trigger] reached.outer_b[i],
            ) by {
                assert(expected.1.outer_b[i] == filled[i]);
                lemma_clone_descends(expected.1.outer_b[i], reached.outer_b[i]);
            }
            assert(expected.1.descends_to(reached));
            old(self).layout().lemma_pop_back();
            expected.1.lemma_descends_flat(reached);
            if exact_clone::<A>() {
                expected.1.lemma_descends_exact(reached);
                lemma_descends_exact(expected.0, value);
            }
        }
        Some(value)
    }

    /// Appends the elements of `chunk` to the middle: into its last chunk
    /// where they fit, else as a chunk of its own.  The four end slots and
    /// the recorded total stay as they are.
    fn push_buffer_back(&mut self, chunk: Arc<Chunk<A>>)
        requires
            old(self).layout().middle_wf(),
            chunk.wf(),
            old(self).middle_length + chunk@.len() <= usize::MAX,
        ensures
            final(self).layout().middle_wf(),
            final(self).middle_length == old(self).middle_length + chunk@.len(),
            final(self).length == old(self).length,
            final(self).outer_f == old(self).outer_f,
            final(self).inner_f == old(self).inner_f,
            final(self).inner_b == old(self).inner_b,
            final(self).outer_b == old(self).outer_b,
            old(self).layout().buffer_back(chunk@).descends_to(final(self).layout()),
            exact_clone::<A>() ==> final(self).layout() == old(self).layout().buffer_back(chunk@),
    {
        if !chunk.is_empty() {
            let middle_len = self.middle.items.len();
            let ghost before = contents(self.middle.items@);
            if middle_len > 0 {
                let last_len = self.middle.items[middle_len - 1].len();
                assert(last_len == before.last().len());
                if last_len + chunk.len() <= CHUNK_SIZE {
                    let middle = make_mut(&mut self.middle);
                    let last = make_mut(&mut middle.items[middle_len - 1]);
                    last.extend(&chunk);
                    self.middle_length += chunk.len();
                    proof {
                        let after = contents(self.middle.items@);
                        assert(before.drop_last().push(before.last()) =~= before);
                        assert(after.drop_last().push(after.last()) =~= after);
                        assert(after.drop_last() =~= before.drop_last());
                        before.drop_last().lemma_flatten_push(before.last());
                        after.drop_last().lemma_flatten_push(after.last());
                        let expected = old(self).layout().buffer_back(chunk@);
                        assert(copied(before.last() + chunk@, after.last()));
                        lemma_copied_descends(before.last() + chunk@, after.last());
                        assert forall|i: int| 0 <= i < expected.middle.len() implies seq_descends(
                            expected.middle[i],
                            #[trigger] after[i],
                        ) by {
                            if i < before.len() - 1 {
                                assert(after[i] == after.drop_last()[i]);
                            }
                        }
                        assert(expected.descends_to(self.layout()));
                        if exact_clone::<A>() {
                            expected.lemma_descends_exact(self.layout());
                        }
                    }
                    return;
                }
            }
            self.middle_length += chunk.len();
            let middle = make_mut(&mut self.middle);
            middle.items.push(chunk);
            proof {
                assert(contents(self.middle.items@) =~= before.push(chunk@));
                before.lemma_flatten_push(chunk@);
                assert(self.layout() =~= old(self).layout().buffer_back(chunk@));
            }
        }
    }

    /// Puts the elements of `chunk` in front of the middle: together with
    /// those of its first chunk where they fit in one chunk, else as a chunk
    /// of its own.  The four end slots and the recorded total stay as they
    /// are.
    fn push_buffer_front(&mut self, chunk: Arc<Chunk<A>>)
        requires
            old(self).layout().middle_wf(),
            chunk.wf(),
            old(self).middle_length + chunk@.len() <= usize::MAX,
        ensures
            final(self).layout().middle_wf(),
            final(self).middle_length == old(self).middle_length + chunk@.len(),
            final(self).length == old(self).length,
            final(self).outer_f == old(self).outer_f,
            final(self).inner_f == old(self).inner_f,
            final(self).inner_b == old(self).inner_b,
            final(self).outer_b == old(self).outer_b,
            old(self).layout().buffer_front(chunk@).descends_to(final(self).layout()),
            exact_clone::<A>() ==> final(self).layout() == old(self).layout().buffer_front(
                chunk@,
            ),
    {
        let mut chunk = chunk;
        let ghost incoming = chunk@;
        if !chunk.is_empty() {
            let added = chunk.len();
            let ghost before = contents(self.middle.items@);
            if self.middle.items.len() > 0 {
                let first_len = self.middle.items[0].len();
                assert(first_len == before.first().len());
                if first_len + added <= CHUNK_SIZE {
                    let middle = make_mut(&mut self.middle);
                    swap(&mut chunk, &mut middle.items[0]);
                    let target = make_mut(&mut middle.items[0]);
                    target.extend(&chunk);
                    self.middle_length += added;
                    proof {
                        let after = contents(self.middle.items@);
                        assert(seq![before.first()] + before.drop_first() =~= before);
                        assert(seq![after.first()] + after.drop_first() =~= after);
                        assert(after.drop_first() =~= before.drop_first());
                        lemma_flatten_front(before.first(), before.drop_first());
                        lemma_flatten_front(after.first(), after.drop_first());
                        let expected = old(self).layout().buffer_front(incoming);
                        assert(copied(incoming + before.first(), after.first()));
                        lemma_copied_descends(incoming + before.first(), after.first());
                        assert forall|i: int| 0 <= i < expected.middle.len() implies seq_descends(
                            expected.middle[i],
                            #[trigger] after[i],
                        ) by {
                            if i > 0 {
                                assert(after[i] == after.drop_first()[i - 1]);
                            }
                        }
                        assert(expected.descends_to(self.layout()));
                        if exact_clone::<A>() {
                            expected.lemma_descends_exact(self.layout());
                        }
                    }
                    return;
                }
            }
            self.middle_length += added;
            let middle = make_mut(&mut self.middle);
            middle.items.insert(0, chunk);
            proof {
                assert(contents(self.middle.items@) =~= seq![incoming] + before);
                lemma_flatten_front(incoming, before);
                assert(self.layout() =~= old(self).layout().buffer_front(incoming));
            }
        }
    }

    /// Appends the chunks of the middle of `other` to the middle.  Where
    /// the last chunk of the one and the first chunk of the other fit in one
    /// chunk, they become one.  The four end slots and the recorded total
    /// stay as they are.
    fn join_middle(&mut self, other: &Self)
        requires
            old(self).layout().middle_wf(),
            other.layout().middle_wf(),
            old(self).middle_length + other.middle_length <= usize::MAX,
        ensures
            final(self).layout().middle_wf(),
            final(self).middle_length == old(self).middle_length + other.middle_length,
            final(self).length == old(self).length,
            final(self).outer_f == old(self).outer_f,
            final(self).inner_f == old(self).inner_f,
            final(self).inner_b == old(self).inner_b,
            final(self).outer_b == old(self).outer_b,
            chunks_descend(
                Layout::<A>::join_middles(old(self).layout().middle, other.layout().middle),
                final(self).layout().middle,
            ),
            exact_clone::<A>() ==> final(self).layout().middle == Layout::<A>::join_middles(
                old(self).layout().middle,
                other.layout().middle,
            ),
    {
        let ghost first = contents(self.middle.items@);
        let ghost second = contents(other.middle.items@);
        let middle_len = self.middle.items.len();
        let other_len = other.middle.items.len();
        let mut skip: usize = 0;
        if middle_len > 0 && other_len > 0 {
            let back1_len = self.middle.items[middle_len - 1].len();
            let front2_len = other.middle.items[0].len();
            assert(back1_len == first.last().len());
            assert(front2_len == second.first().len());
            if back1_len + front2_len <= CHUNK_SIZE {
                proof {
                    lemma_flatten_split(second, 0);
                    assert(second.take(0).flatten() =~= Seq::<A>::empty());
                }
                let middle1 = make_mut(&mut self.middle);
                let back1 = make_mut(&mut middle1.items[middle_len - 1]);
                back1.extend(&other.middle.items[0]);
                self.middle_length += front2_len;
                skip = 1;
                proof {
                    let after = contents(self.middle.items@);
                    assert(first.drop_last().push(first.last()) =~= first);
                    assert(after.drop_last().push(after.last()) =~= after);
                    assert(after.drop_last() =~= first.drop_last());
                    first.drop_last().lemma_flatten_push(first.last());
                    after.drop_last().lemma_flatten_push(after.last());
                    assert(copied(first.last() + second.first(), after.last()));
                    lemma_copied_descends(first.last() + second.first(), after.last());
                }
            }
        }
        let ghost base = contents(self.middle.items@);
        let ghost rest = second.skip(skip as int);
        proof {
            if skip == 0 {
                assert(rest =~= second);
            }
            assert(rest.subrange(0, 0).flatten() =~= Seq::<A>::empty());
            assert(base + rest.subrange(0, 0) =~= base);
            assert(chunks_wf(rest)) by {
                assert forall|j: int| 0 <= j < rest.len() implies 0 < (#[trigger] rest[j]).len()
                    <= CHUNK_SIZE by {
                    assert(rest[j] == second[j + skip]);
                }
            }
        }
        let mut i: usize = skip;
        while i < other_len
            invariant
                skip <= i <= other_len,
                other_len == other.middle.items@.len(),
                second == contents(other.middle.items@),
                rest == second.skip(skip as int),
                chunks_wf(rest),
                self.layout().middle_wf(),
                contents(self.middle.items@) == base + rest.subrange(0, i - skip),
                self.middle_length == base.flatten().len() + rest.subrange(
                    0,
                    i - skip,
                ).flatten().len(),
                base.flatten().len() + rest.flatten().len() <= usize::MAX,
                self.length == old(self).length,
                self.outer_f == old(self).outer_f,
                self.inner_f == old(self).inner_f,
                self.inner_b == old(self).inner_b,
                self.outer_b == old(self).outer_b,
            decreases other_len - i,
        {
            let chunk = other.middle.items[i].clone();
            let ghost done = rest.subrange(0, i - skip);
            let ghost now = contents(self.middle.items@);
            proof {
                assert(chunk@ == rest[i - skip]);
                assert(rest.subrange(0, i - skip + 1) =~= done.push(chunk@));
                done.lemma_flatten_push(chunk@);
                now.lemma_flatten_push(chunk@);
                lemma_flatten_prefix_len(rest, i - skip + 1);
            }
            self.middle_length += chunk.len();
            let middle1 = make_mut(&mut self.middle);
            middle1.items.push(chunk);
            proof {
                assert(contents(self.middle.items@) =~= now.push(chunk@));
                assert(now.push(chunk@) =~= base + done.push(chunk@));
            }
            i += 1;
        }
        proof {
            assert(rest.subrange(0, other_len - skip) =~= rest);
            let expected = Layout::<A>::join_middles(first, second);
            let reached = base + rest;
            assert forall|j: int| 0 <= j < expected.len() implies seq_descends(
                expected[j],
                #[trigger] reached[j],
            ) by {
                if skip == 1 && j < first.len() - 1 {
                    assert(base[j] == base.drop_last()[j]);
                }
            }
            if exact_clone::<A>() {
                assert forall|j: int| 0 <= j < expected.len() implies expected[j]
                    == reached[j] by {
                    assert(seq_descends(expected[j], reached[j]));
                    lemma_seq_descends_exact(expected[j], reached[j]);
                }
                assert(reached =~= expected);
            }
        }
    }

    /// Appends the elements of `other`.
    pub fn concat(&mut self, other: Self)
        requires
            old(self).wf(),
            other.wf(),
            old(self)@.len() + other@.len() <= usize::MAX,
        ensures
            final(self).wf(),
            final(self)@.len() == old(self)@.len() + other@.len(),
            old(self).layout().concat(other.layout()).descends_to(final(self).layout()),
            seq_descends(old(self)@ + other@, final(self)@),
            exact_clone::<A>() ==> final(self).layout() == old(self).layout().concat(
                other.layout(),
            ),
            exact_clone::<A>() ==> final(self)@ == old(self)@ + other@,
    {
        let mut other = other;
        let ghost left = self.layout();
        let ghost right = other.layout();
        proof {
            left.lemma_concat(right);
        }
        if other.is_empty() {
            return;
        }
        let inner_b1 = self.inner_b.clone();
        self.push_buffer_back(inner_b1);
        let ghost left1 = self.layout();
        let outer_b1 = self.outer_b.clone();
        self.push_buffer_back(outer_b1);
        let ghost left2 = self.layout();
        let inner_f2 = other.inner_f.clone();
        other.push_buffer_front(inner_f2);
        let ghost right1 = other.layout();
        let outer_f2 = other.outer_f.clone();
        other.push_buffer_front(outer_f2);
        let ghost right2 = other.layout();
        self.join_middle(&other);
        self.inner_b = other.inner_b.clone();
        self.outer_b = other.outer_b.clone();
        self.length += other.length;
        proof {
            let flushed_left = left.buffer_back(left.inner_b).buffer_back(left.outer_b);
            let flushed_right = right.buffer_front(right.inner_f).buffer_front(right.outer_f);
            left.buffer_back(left.inner_b).lemma_buffer_back_descends(
                left1,
                left.outer_b,
                left.outer_b,
            );
            flushed_left.lemma_descends_transitive(left1.buffer_back(left.outer_b), left2);
            right.buffer_front(right.inner_f).lemma_buffer_front_descends(
                right1,
                right.outer_f,
                right.outer_f,
            );
            flushed_right.lemma_descends_transitive(right1.buffer_front(right.outer_f), right2);
            Layout::lemma_join_middles_descends(
                flushed_left.middle,
                left2.middle,
                flushed_right.middle,
                right2.middle,
            );
            lemma_chunks_descend_transitive(
                Layout::join_middles(flushed_left.middle, flushed_right.middle),
                Layout::join_middles(left2.middle, right2.middle),
                self.layout().middle,
            );
            assert(left.concat(right).descends_to(self.layout()));
            left.concat(right).lemma_descends_flat(self.layout());
            if exact_clone::<A>() {
                left.concat(right).lemma_descends_exact(self.layout());
            }
        }
    }
}

impl<A: Clone> RawSeq<A> {
    /// Finds the chunk of the middle that holds the element at `index` of
    /// the middle.  Returns the chunks before it, the chunk, the chunks
    /// after it, and how many elements the chunks before and after hold.
    fn split_middle(&self, index: usize) -> (r: (
        Vec<Arc<Chunk<A>>>,
        Arc<Chunk<A>>,
        Vec<Arc<Chunk<A>>>,
        usize,
        usize,
    ))
        requires
            self.layout().middle_wf(),
            index < self.middle_length,
        ensures
            r.0@.len() < self.middle.items@.len(),
            r.0@ == self.middle.items@.take(r.0@.len() as int),
            r.1 == self.middle.items@[r.0@.len() as int],
            r.2@ == self.middle.items@.skip(r.0@.len() as int + 1),
            r.3 == contents(r.0@).flatten().len(),
            r.4 == contents(r.2@).flatten().len(),
            r.3 <= index < r.3 + r.1@.len(),
    {
        let mut left_len: usize = 0;
        let mut right_len: usize = 0;
        let mut left: Vec<Arc<Chunk<A>>> = Vec::new();
        let mut middle: Option<Arc<Chunk<A>>> = None;
        let mut right: Vec<Arc<Chunk<A>>> = Vec::new();
        let mut found = false;
        let n = self.middle.items.len();
        let ghost items = self.middle.items@;
        let ghost all = contents(items);
        let mut i: usize = 0;
        proof {
            assert(contents(left@) =~= Seq::<Seq<A>>::empty());
        }
        while i < n
            invariant
                i <= n,
                n == items.len(),
                items == self.middle.items@,
                all == contents(items),
                self.layout().middle_wf(),
                index < self.middle_length,
                left_len == contents(left@).flatten().len(),
                right_len == contents(right@).flatten().len(),
                left@.len() <= i,
                left@ == items.take(left@.len() as int),
                found == middle.is_some(),
                !found ==> left@.len() == i && right@.len() == 0 && left_len <= index,
                found ==> left@.len() < i && middle == Some(items[left@.len() as int]),
                found ==> right@ == items.subrange(left@.len() as int + 1, i as int),
                found ==> left_len <= index < left_len + all[left@.len() as int].len(),
            decreases n - i,
        {
            let chunk = &self.middle.items[i];
            assert(chunk@ == all[i as int]);
            if found {
                proof {
                    let k = left@.len() as int;
                    lemma_flatten_split(all, k);
                    let rest = all.skip(k + 1);
                    assert(contents(right@) =~= rest.subrange(0, i - k - 1));
                    assert(rest.subrange(0, i - k) =~= contents(right@).push(chunk@));
                    contents(right@).lemma_flatten_push(chunk@);
                    lemma_flatten_prefix_len(rest, i - k);
                    assert(contents(right@.push(*chunk)) =~= contents(right@).push(chunk@));
                }
                right_len += chunk.len();
                right.push(chunk.clone());
                assert(right@ =~= items.subrange(left@.len() as int + 1, i + 1));
            } else {
                proof {
                    assert(contents(left@) =~= all.take(i as int));
                    assert(all.take(i + 1) =~= contents(left@).push(chunk@));
                    contents(left@).lemma_flatten_push(chunk@);
                    lemma_flatten_prefix_len(all, i + 1);
                    assert(contents(left@.push(*chunk)) =~= contents(left@).push(chunk@));
                }
                let seen = left_len + chunk.len();
                if index < seen {
                    middle = Some(chunk.clone());
                    found = true;
                    assert(right@ =~= items.subrange(left@.len() as int + 1, i + 1));
                } else {
                    left.push(chunk.clone());
                    left_len = seen;
                    assert(left@ =~= items.take(i + 1));
                }
            }
            i += 1;
        }
        proof {
            if !found {
                assert(left@ =~= items);
            }
            assert(right@ =~= items.skip(left@.len() as int + 1));
        }
        (left, middle.unwrap(), right, left_len, right_len)
    }

    /// The elements before `index` as one sequence, and those from `index`
    /// on as another.  `index` is the place of an element: a split at the
    /// length of the sequence is not offered.
    pub fn split(&self, index: usize) -> (r: (Self, Self))
        requires
            self.wf(),
            index < self@.len(),
        ensures
            r.0.wf(),
            r.1.wf(),
            r.0@.len() == index,
            r.1@.len() == self@.len() - index,
            self.layout().split(index as int).0.descends_to(r.0.layout()),
            self.layout().split(index as int).1.descends_to(r.1.layout()),
            seq_descends(self@.take(index as int), r.0@),
            seq_descends(self@.skip(index as int), r.1@),
            exact_clone::<A>() ==> r.0.layout() == self.layout().split(index as int).0
                && r.1.layout() == self.layout().split(index as int).1,
            exact_clone::<A>() ==> r.0@ == self@.take(index as int) && r.1@ == self@.skip(
                index as int,
            ),
    {
        let ghost whole = self.layout();
        let ghost none = Seq::<Seq<A>>::empty();
        let ghost expected = whole.split(index as int);
        proof {
            assert(none.flatten() =~= Seq::<A>::empty());
            whole.lemma_split(index as int);
        }
        let mut local_index = index;

        if local_index < self.outer_f.len() {
            let (of1, of2) = self.outer_f.split(local_index);
            proof {
                lemma_copied_descends(self.outer_f@.take(local_index as int), of1@);
                lemma_copied_descends(self.outer_f@.skip(local_index as int), of2@);
            }
            let left = RawSeq {
                length: index,
                middle_length: 0,
                outer_f: Arc::new(of1),
                inner_f: Arc::new(Chunk::new()),
                middle: Arc::new(ChunkList::new()),
                inner_b: Arc::new(Chunk::new()),
                outer_b: Arc::new(Chunk::new()),
            };
            let right = RawSeq {
                length: self.length - index,
                middle_length: self.middle_length,
                outer_f: Arc::new(of2),
                inner_f: self.inner_f.clone(),
                middle: self.middle.clone(),
                inner_b: self.inner_b.clone(),
                outer_b: self.outer_b.clone(),
            };
            proof {
                assert(left.layout().middle =~= none);
                assert(expected.0.descends_to(left.layout()));
                assert(expected.1.descends_to(right.layout()));
                expected.0.lemma_descends_flat(left.layout());
                expected.1.lemma_descends_flat(right.layout());
                if exact_clone::<A>() {
                    expected.0.lemma_descends_exact(left.layout());
                    expected.1.lemma_descends_exact(right.layout());
                }
            }
            return (left, right);
        }
        local_index -= self.outer_f.len();

        if local_index < self.inner_f.len() {
            let (if1, if2) = self.inner_f.split(local_index);
            proof {
                lemma_copied_descends(self.inner_f@.take(local_index as int), if1@);
                lemma_copied_descends(self.inner_f@.skip(local_index as int), if2@);
            }
            let left = RawSeq {
                length: index,
                middle_length: 0,
                outer_f: self.outer_f.clone(),
                inner_f: Arc::new(Chunk::new()),
                middle: Arc::new(ChunkList::new()),
                inner_b: Arc::new(Chunk::new()),
                outer_b: Arc::new(if1),
            };
            let right = RawSeq {
                length: self.length - index,
                middle_length: self.middle_length,
                outer_f: Arc::new(if2),
                inner_f: Arc::new(Chunk::new()),
                middle: self.middle.clone(),
                inner_b: self.inner_b.clone(),
                outer_b: self.outer_b.clone(),
            };
            proof {
                assert(left.layout().middle =~= none);
                assert(expected.0.descends_to(left.layout()));
                assert(expected.1.descends_to(right.layout()));
                expected.0.lemma_descends_flat(left.layout());
                expected.1.lemma_descends_flat(right.layout());
                if exact_clone::<A>() {
                    expected.0.lemma_descends_exact(left.layout());
                    expected.1.lemma_descends_exact(right.layout());
                }
            }
            return (left, right);
        }
        local_index -= self.inner_f.len();

        if local_index < self.middle_length {
            let ghost offset = local_index as int;
            let (m1, c, m2, m1_len, m2_len) = self.split_middle(local_index);
            local_index -= m1_len;
            let (c1, c2) = c.split(local_index);
            proof {
                lemma_copied_descends(c@.take(local_index as int), c1@);
                lemma_copied_descends(c@.skip(local_index as int), c2@);
            }
            let ghost k = m1@.len() as int;
            proof {
                lemma_flatten_split(whole.middle, k);
                assert(contents(m1@) =~= whole.middle.take(k));
                assert(contents(m2@) =~= whole.middle.skip(k + 1));
                assert(c@ == whole.middle[k]);
                lemma_chunk_at(whole.middle, offset, k);
                assert(chunks_wf(contents(m1@)));
                assert(chunks_wf(contents(m2@))) by {
                    assert forall|i: int| 0 <= i < contents(m2@).len() implies 0 < (
                    #[trigger] contents(m2@)[i]).len() <= CHUNK_SIZE by {
                        assert(contents(m2@)[i] == whole.middle[k + 1 + i]);
                    }
                }
            }
            let left = RawSeq {
                length: index,
                middle_length: m1_len,
                outer_f: self.outer_f.clone(),
                inner_f: self.inner_f.clone(),
                middle: Arc::new(ChunkList { items: m1 }),
                inner_b: Arc::new(Chunk::new()),
                outer_b: Arc::new(c1),
            };
            let right = RawSeq {
                length: self.length - index,
                middle_length: m2_len,
                outer_f: Arc::new(c2),
                inner_f: Arc::new(Chunk::new()),
                middle: Arc::new(ChunkList { items: m2 }),
                inner_b: self.inner_b.clone(),
                outer_b: self.outer_b.clone(),
            };
            proof {
                assert(left.wf());
                assert(right.wf());
                assert(expected.0.descends_to(left.layout()));
                assert(expected.1.descends_to(right.layout()));
                expected.0.lemma_descends_flat(left.layout());
                expected.1.lemma_descends_flat(right.layout());
                if exact_clone::<A>() {
                    expected.0.lemma_descends_exact(left.layout());
                    expected.1.lemma_descends_exact(right.layout());
                }
            }
            return (left, right);
        }
        local_index -= self.middle_length;

        if local_index < self.inner_b.len() {
            let (ib1, ib2) = self.inner_b.split(local_index);
            proof {
                lemma_copied_descends(self.inner_b@.take(local_index as int), ib1@);
                lemma_copied_descends(self.inner_b@.skip(local_index as int), ib2@);
            }
            let left = RawSeq {
                length: index,
                middle_length: self.middle_length,
                outer_f: self.outer_f.clone(),
                inner_f: self.inner_f.clone(),
                middle: self.middle.clone(),
                inner_b: Arc::new(Chunk::new()),
                outer_b: Arc::new(ib1),
            };
            let right = RawSeq {
                length: self.length - index,
                middle_length: 0,
                outer_f: Arc::new(ib2),
                inner_f: Arc::new(Chunk::new()),
                middle: Arc::new(ChunkList::new()),
                inner_b: Arc::new(Chunk::new()),
                outer_b: self.outer_b.clone(),
            };
            proof {
                assert(right.layout().middle =~= none);
                assert(expected.0.descends_to(left.layout()));
                assert(expected.1.descends_to(right.layout()));
                expected.0.lemma_descends_flat(left.layout());
                expected.1.lemma_descends_flat(right.layout());
                if exact_clone::<A>() {
                    expected.0.lemma_descends_exact(left.layout());
                    expected.1.lemma_descends_exact(right.layout());
                }
            }
            return (left, right);
        }
        local_index -= self.inner_b.len();

        let (ob1, ob2) = self.outer_b.split(local_index);
        proof {
            lemma_copied_descends(self.outer_b@.take(local_index as int), ob1@);
            lemma_copied_descends(self.outer_b@.skip(local_index as int), ob2@);
        }
        let left = RawSeq {
            length: index,
            middle_length: self.middle_length,
            outer_f: self.outer_f.clone(),
            inner_f: self.inner_f.clone(),
            middle: self.middle.clone(),
            inner_b: self.inner_b.clone(),
            outer_b: Arc::new(ob1),
        };
        let right = RawSeq {
            length: self.length - index,
            middle_length: 0,
            outer_f: Arc::new(Chunk::new()),
            inner_f: Arc::new(Chunk::new()),
            middle: Arc::new(ChunkList::new()),
            inner_b: Arc::new(Chunk::new()),
            outer_b: Arc::new(ob2),
        };
        proof {
            assert(right.layout().middle =~= none);
            assert(expected.0.descends_to(left.layout()));
            assert(expected.1.descends_to(right.layout()));
            expected.0.lemma_descends_flat(left.layout());
            expected.1.lemma_descends_flat(right.layout());
            if exact_clone::<A>() {
                expected.0.lemma_descends_exact(left.layout());
                expected.1.lemma_descends_exact(right.layout());
            }
        }
        (left, right)
    }
}

impl<A: Clone> RawSeq<A> {
    /// The sequence of the elements of `items`, pushed to the back one
    /// after the other.
    pub fn from_iter(items: Vec<A>) -> (r: Self)
        ensures
            r.wf(),
            r@.len() == items@.len(),
            Layout::from_seq(items@).descends_to(r.layout()),
            seq_descends(items@, r@),
            exact_clone::<A>() ==> r.layout() == Layout::from_seq(items@),
            exact_clone::<A>() ==> r@ == items@,
    {
        let mut seq = Self::new();
        let n = items.len();
        for item in it: items
            invariant
                seq.wf(),
                n == items@.len(),
                it.seq() == items@,
                seq@.len() == it.index(),
                Layout::from_seq(items@.take(it.index() as int)).descends_to(seq.layout()),
        {
            let ghost before = seq.layout();
            let ghost taken = items@.take(it.index() as int);
            proof {
                let next = items@.take(it.index() + 1);
                assert(next.drop_last() =~= taken);
                assert(next.last() == item);
            }
            seq.push_back(item);
            proof {
                Layout::from_seq(taken).lemma_push_back_descends(before, item);
                Layout::from_seq(taken).push_back(item).lemma_descends_transitive(
                    before.push_back(item),
                    seq.layout(),
                );
            }
        }
        proof {
            assert(items@.take(items@.len() as int) =~= items@);
            Layout::lemma_from_seq(items@);
            Layout::from_seq(items@).lemma_descends_flat(seq.layout());
            if exact_clone::<A>() {
                Layout::from_seq(items@).lemma_descends_exact(seq.layout());
            }
        }
        seq
    }
}

impl<A> RawSeq<A> {
    /// The chunk at the very front.
    pub(crate) fn front_outer(&self) -> (r: &Arc<Chunk<A>>)
        ensures
            r@ == self.layout().outer_f,
    {
        &self.outer_f
    }

    /// The chunk behind the one at the front.
    pub(crate) fn front_inner(&self) -> (r: &Arc<Chunk<A>>)
        ensures
            r@ == self.layout().inner_f,
    {
        &self.inner_f
    }

    /// The chunk before the one at the back.
    pub(crate) fn back_inner(&self) -> (r: &Arc<Chunk<A>>)
        ensures
            r@ == self.layout().inner_b,
    {
        &self.inner_b
    }

    /// The chunk at the very back.
    pub(crate) fn back_outer(&self) -> (r: &Arc<Chunk<A>>)
        ensures
            r@ == self.layout().outer_b,
    {
        &self.outer_b
    }

    /// How many chunks the middle holds.
    pub(crate) fn middle_chunks(&self) -> (r: usize)
        ensures
            r == self.layout().middle.len(),
    {
        self.middle.items.len()
    }

    /// The chunk at `index` of the middle.
    pub(crate) fn middle_chunk(&self, index: usize) -> (r: &Arc<Chunk<A>>)
        requires
            index < self.layout().middle.len(),
        ensures
            r@ == self.layout().middle[index as int],
    {
        &self.middle.items[index]
    }
}

impl<A: Clone> Default for RawSeq<A> {
    fn default() -> (r: Self)
        ensures
            r.wf(),
            r@ == Seq::<A>::empty(),
            r.layout() == Layout::<A>::empty(),
    {
        Self::new()
    }
}

impl<A> Clone for RawSeq<A> {
    /// A second owner of the same chunks.
    fn clone(&self) -> (r: Self)
        ensures
            r == *self,
    {
        RawSeq {
            length: self.length,
            middle_length: self.middle_length,
            outer_f: self.outer_f.clone(),
            inner_f: self.inner_f.clone(),
            middle: self.middle.clone(),
            inner_b: self.inner_b.clone(),
            outer_b: self.outer_b.clone(),
        }
    }
}

} // verus!
