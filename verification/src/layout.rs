//! The slots of a spine as plain sequences, the operations on them, and
//! what each operation does to the elements in order.

use crate::chunk::CHUNK_SIZE;
use vstd::prelude::*;

verus! {

/// What a spine holds, slot by slot, from front to back.
#[verifier::ext_equal]
pub struct Layout<A> {
    pub length: nat,
    pub middle_length: nat,
    pub outer_f: Seq<A>,
    pub inner_f: Seq<A>,
    pub middle: Seq<Seq<A>>,
    pub inner_b: Seq<A>,
    pub outer_b: Seq<A>,
}

/// The index of the chunk that holds the element at `offset` of the
/// flattened list.
pub open spec fn chunk_at<A>(chunks: Seq<Seq<A>>, offset: int) -> int
    decreases chunks.len(),
{
    if chunks.len() == 0 || offset < chunks.first().len() {
        0
    } else {
        1 + chunk_at(chunks.drop_first(), offset - chunks.first().len())
    }
}

/// How many elements the first `k` chunks hold.
pub open spec fn prefix_len<A>(chunks: Seq<Seq<A>>, k: int) -> nat {
    chunks.take(k).flatten().len()
}

impl<A> Layout<A> {
    /// The elements in order: the front chunks, the middle chunks, the back
    /// chunks.
    pub open spec fn flat(self) -> Seq<A> {
        self.outer_f + self.inner_f + self.middle.flatten() + self.inner_b + self.outer_b
    }

    /// The recorded length of the middle is the true one, and each of its
    /// chunks holds at least one element and at most a full chunk.
    pub open spec fn middle_wf(self) -> bool {
        &&& self.middle_length == self.middle.flatten().len()
        &&& chunks_wf(self.middle)
    }

    /// The recorded lengths are the true ones, no chunk is over its
    /// capacity, no chunk of the middle is empty, and each inner chunk is
    /// empty or full.
    pub open spec fn wf(self) -> bool {
        &&& self.length == self.outer_f.len() + self.inner_f.len() + self.middle_length
            + self.inner_b.len() + self.outer_b.len()
        &&& self.length <= usize::MAX
        &&& self.middle_wf()
        &&& self.outer_f.len() <= CHUNK_SIZE
        &&& self.outer_b.len() <= CHUNK_SIZE
        &&& self.inner_f.len() == 0 || self.inner_f.len() == CHUNK_SIZE
        &&& self.inner_b.len() == 0 || self.inner_b.len() == CHUNK_SIZE
    }

    /// The layout without elements.
    pub open spec fn empty() -> Self {
        Layout {
            length: 0,
            middle_length: 0,
            outer_f: Seq::empty(),
            inner_f: Seq::empty(),
            middle: Seq::empty(),
            inner_b: Seq::empty(),
            outer_b: Seq::empty(),
        }
    }

    /// Makes room in the outer front chunk: a full one becomes the inner
    /// front chunk, and a full inner front chunk moves to the front of the
    /// middle.
    pub open spec fn shift_front(self) -> Self {
        if self.outer_f.len() != CHUNK_SIZE {
            self
        } else if self.inner_f.len() == 0 {
            Layout { outer_f: self.inner_f, inner_f: self.outer_f, ..self }
        } else {
            Layout {
                middle_length: self.middle_length + self.inner_f.len(),
                outer_f: Seq::empty(),
                inner_f: self.outer_f,
                middle: seq![self.inner_f] + self.middle,
                ..self
            }
        }
    }

    /// Makes room in the outer back chunk, as `shift_front` does in front.
    pub open spec fn shift_back(self) -> Self {
        if self.outer_b.len() != CHUNK_SIZE {
            self
        } else if self.inner_b.len() == 0 {
            Layout { outer_b: self.inner_b, inner_b: self.outer_b, ..self }
        } else {
            Layout {
                middle_length: self.middle_length + self.inner_b.len(),
                outer_b: Seq::empty(),
                inner_b: self.outer_b,
                middle: self.middle.push(self.inner_b),
                ..self
            }
        }
    }

    /// The layout with `value` in front.
    pub open spec fn push_front(self, value: A) -> Self {
        let shifted = self.shift_front();
        Layout { length: self.length + 1, outer_f: seq![value] + shifted.outer_f, ..shifted }
    }

    /// The layout with `value` at the back.
    pub open spec fn push_back(self, value: A) -> Self {
        let shifted = self.shift_back();
        Layout { length: self.length + 1, outer_b: shifted.outer_b.push(value), ..shifted }
    }

    /// Fills an empty outer front chunk from the first slot behind it that
    /// holds anything: the inner front chunk, the middle, the inner back
    /// chunk, the outer back chunk.
    pub open spec fn refill_front(self) -> Self {
        if self.outer_f.len() > 0 {
            self
        } else if self.inner_f.len() > 0 {
            Layout { outer_f: self.inner_f, inner_f: self.outer_f, ..self }
        } else if self.middle.len() > 0 {
            Layout {
                middle_length: (self.middle_length - self.middle.first().len()) as nat,
                outer_f: self.middle.first(),
                middle: self.middle.drop_first(),
                ..self
            }
        } else if self.inner_b.len() > 0 {
            Layout { outer_f: self.inner_b, inner_b: self.outer_f, ..self }
        } else {
            Layout { outer_f: self.outer_b, outer_b: self.outer_f, ..self }
        }
    }

    /// Fills an empty outer back chunk from the first slot before it that
    /// holds anything: the inner back chunk, the middle, the inner front
    /// chunk, the outer front chunk.
    pub open spec fn refill_back(self) -> Self {
        if self.outer_b.len() > 0 {
            self
        } else if self.inner_b.len() > 0 {
            Layout { outer_b: self.inner_b, inner_b: self.outer_b, ..self }
        } else if self.middle.len() > 0 {
            Layout {
                middle_length: (self.middle_length - self.middle.last().len()) as nat,
                outer_b: self.middle.last(),
                middle: self.middle.drop_last(),
                ..self
            }
        } else if self.inner_f.len() > 0 {
            Layout { outer_b: self.inner_f, inner_f: self.outer_b, ..self }
        } else {
            Layout { outer_b: self.outer_f, outer_f: self.outer_b, ..self }
        }
    }

    /// The first element, and the layout without it.
    pub open spec fn pop_front(self) -> (A, Self) {
        let filled = self.refill_front();
        (
            filled.outer_f.first(),
            Layout {
                length: (self.length - 1) as nat,
                outer_f: filled.outer_f.drop_first(),
                ..filled
            },
        )
    }

    /// The last element, and the layout without it.
    pub open spec fn pop_back(self) -> (A, Self) {
        let filled = self.refill_back();
        (
            filled.outer_b.last(),
            Layout {
                length: (self.length - 1) as nat,
                outer_b: filled.outer_b.drop_last(),
                ..filled
            },
        )
    }

    /// The layout with the elements of `chunk` at the back of the middle:
    /// in its last chunk where they fit, else as a chunk of their own.
    pub open spec fn buffer_back(self, chunk: Seq<A>) -> Self {
        if chunk.len() == 0 {
            self
        } else if self.middle.len() > 0 && self.middle.last().len() + chunk.len() <= CHUNK_SIZE {
            Layout {
                middle_length: self.middle_length + chunk.len(),
                middle: self.middle.drop_last().push(self.middle.last() + chunk),
                ..self
            }
        } else {
            Layout {
                middle_length: self.middle_length + chunk.len(),
                middle: self.middle.push(chunk),
                ..self
            }
        }
    }

    /// The layout with the elements of `chunk` at the front of the middle:
    /// before those of its first chunk where they fit in one chunk, else
    /// as a chunk of their own.
    pub open spec fn buffer_front(self, chunk: Seq<A>) -> Self {
        if chunk.len() == 0 {
            self
        } else if self.middle.len() > 0 && self.middle.first().len() + chunk.len() <= CHUNK_SIZE {
            Layout {
                middle_length: self.middle_length + chunk.len(),
                middle: seq![chunk + self.middle.first()] + self.middle.drop_first(),
                ..self
            }
        } else {
            Layout {
                middle_length: self.middle_length + chunk.len(),
                middle: seq![chunk] + self.middle,
                ..self
            }
        }
    }

    /// The chunks of two middles as one list.  Where the last chunk of the
    /// first and the first chunk of the second fit in one chunk, they
    /// become one.
    pub open spec fn join_middles(first: Seq<Seq<A>>, second: Seq<Seq<A>>) -> Seq<Seq<A>> {
        if first.len() > 0 && second.len() > 0 && first.last().len() + second.first().len()
            <= CHUNK_SIZE {
            first.drop_last().push(first.last() + second.first()) + second.drop_first()
        } else {
            first + second
        }
    }

    /// The layout of `self` followed by `other`.  The back slots of `self`
    /// and the front slots of `other` go into the middle.
    pub open spec fn concat(self, other: Self) -> Self {
        if other.length == 0 {
            self
        } else {
            let left = self.buffer_back(self.inner_b).buffer_back(self.outer_b);
            let right = other.buffer_front(other.inner_f).buffer_front(other.outer_f);
            Layout {
                length: self.length + other.length,
                middle_length: left.middle_length + right.middle_length,
                outer_f: self.outer_f,
                inner_f: self.inner_f,
                middle: Self::join_middles(left.middle, right.middle),
                inner_b: other.inner_b,
                outer_b: other.outer_b,
            }
        }
    }

    /// The layouts of the elements before `index` and of those from
    /// `index` on.  The chunk that holds the element at `index` is cut in
    /// two: its front part ends the first layout, its back part begins the
    /// second.
    pub open spec fn split(self, index: int) -> (Self, Self) {
        let a = self.outer_f.len();
        let b = a + self.inner_f.len();
        let c = b + self.middle_length;
        let d = c + self.inner_b.len();
        let rest = (self.length - index) as nat;
        if index < a {
            (
                Layout { length: index as nat, outer_f: self.outer_f.take(index), ..Self::empty() },
                Layout { length: rest, outer_f: self.outer_f.skip(index), ..self },
            )
        } else if index < b {
            (
                Layout {
                    length: index as nat,
                    outer_f: self.outer_f,
                    outer_b: self.inner_f.take(index - a),
                    ..Self::empty()
                },
                Layout {
                    length: rest,
                    outer_f: self.inner_f.skip(index - a),
                    inner_f: Seq::empty(),
                    ..self
                },
            )
        } else if index < c {
            let k = chunk_at(self.middle, index - b);
            let before = prefix_len(self.middle, k);
            let cut = index - b - before;
            (
                Layout {
                    length: index as nat,
                    middle_length: before,
                    outer_f: self.outer_f,
                    inner_f: self.inner_f,
                    middle: self.middle.take(k),
                    inner_b: Seq::empty(),
                    outer_b: self.middle[k].take(cut),
                },
                Layout {
                    length: rest,
                    middle_length: self.middle.skip(k + 1).flatten().len(),
                    outer_f: self.middle[k].skip(cut),
                    inner_f: Seq::empty(),
                    middle: self.middle.skip(k + 1),
                    inner_b: self.inner_b,
                    outer_b: self.outer_b,
                },
            )
        } else if index < d {
            (
                Layout {
                    length: index as nat,
                    inner_b: Seq::empty(),
                    outer_b: self.inner_b.take(index - c),
                    ..self
                },
                Layout {
                    length: rest,
                    outer_f: self.inner_b.skip(index - c),
                    outer_b: self.outer_b,
                    ..Self::empty()
                },
            )
        } else {
            (
                Layout { length: index as nat, outer_b: self.outer_b.take(index - d), ..self },
                Layout { length: rest, outer_b: self.outer_b.skip(index - d), ..Self::empty() },
            )
        }
    }

    /// The layout reached from the empty one by putting the elements of
    /// `items` at the back, first to last.
    pub open spec fn from_seq(items: Seq<A>) -> Self
        decreases items.len(),
    {
        if items.len() == 0 {
            Self::empty()
        } else {
            Self::from_seq(items.drop_last()).push_back(items.last())
        }
    }
}

/// Flattening a list with one more chunk in front.
pub proof fn lemma_flatten_front<A>(chunk: Seq<A>, rest: Seq<Seq<A>>)
    ensures
        (seq![chunk] + rest).flatten() == chunk + rest.flatten(),
{
    let all = seq![chunk] + rest;
    assert(all.first() == chunk);
    assert(all.drop_first() =~= rest);
}

/// Flattening a list with one more chunk at the back.
pub proof fn lemma_flatten_back<A>(rest: Seq<Seq<A>>, chunk: Seq<A>)
    ensures
        rest.push(chunk).flatten() == rest.flatten() + chunk,
{
    rest.lemma_flatten_push(chunk);
}

/// The chunks before `n` hold no more elements than the whole list.
pub proof fn lemma_flatten_prefix_len<A>(chunks: Seq<Seq<A>>, n: int)
    requires
        0 <= n <= chunks.len(),
    ensures
        chunks.subrange(0, n).flatten().len() <= chunks.flatten().len(),
{
    assert(chunks.subrange(0, n) + chunks.subrange(n, chunks.len() as int) =~= chunks);
    vstd::seq_lib::lemma_flatten_concat(
        chunks.subrange(0, n),
        chunks.subrange(n, chunks.len() as int),
    );
}

/// A list of chunks flattens to the elements before its chunk `k`, then
/// those of the chunk, then those after it.
pub proof fn lemma_flatten_split<A>(chunks: Seq<Seq<A>>, k: int)
    requires
        0 <= k < chunks.len(),
    ensures
        chunks.flatten() == chunks.take(k).flatten() + chunks[k] + chunks.skip(k + 1).flatten(),
{
    let rest = chunks.skip(k);
    assert(chunks.take(k) + rest =~= chunks);
    vstd::seq_lib::lemma_flatten_concat(chunks.take(k), rest);
    assert(rest.first() == chunks[k]);
    assert(rest.drop_first() =~= chunks.skip(k + 1));
    assert(chunks.flatten() =~= chunks.take(k).flatten() + chunks[k] + chunks.skip(
        k + 1,
    ).flatten());
}

/// Two sequences that together make up `whole` are what is left of it
/// before and after the length of the first.
pub proof fn lemma_cut<A>(whole: Seq<A>, front: Seq<A>, back: Seq<A>)
    requires
        front + back == whole,
    ensures
        front == whole.take(front.len() as int),
        back == whole.skip(front.len() as int),
{
    assert(front =~= whole.take(front.len() as int));
    assert(back =~= whole.skip(front.len() as int));
}

/// The chunk `k` whose elements lie around `offset` is the one that
/// `chunk_at` finds.
pub proof fn lemma_chunk_at<A>(chunks: Seq<Seq<A>>, offset: int, k: int)
    requires
        0 <= k < chunks.len(),
        prefix_len(chunks, k) <= offset < prefix_len(chunks, k) + chunks[k].len(),
    ensures
        chunk_at(chunks, offset) == k,
    decreases k,
{
    if k == 0 {
        assert(chunks.take(0).flatten() =~= Seq::<A>::empty());
    } else {
        let rest = chunks.drop_first();
        assert(chunks.take(k) =~= seq![chunks.first()] + rest.take(k - 1));
        lemma_flatten_front(chunks.first(), rest.take(k - 1));
        assert(rest[k - 1] == chunks[k]);
        lemma_chunk_at(rest, offset - chunks.first().len(), k - 1);
    }
}

/// Every chunk of the list holds at least one element and at most a full
/// chunk.
pub open spec fn chunks_wf<A>(chunks: Seq<Seq<A>>) -> bool {
    forall|i: int| 0 <= i < chunks.len() ==> 0 < (#[trigger] chunks[i]).len() <= CHUNK_SIZE
}

impl<A> Layout<A> {
    /// A well-formed layout holds as many elements as it records.
    pub proof fn lemma_flat_len(self)
        requires
            self.wf(),
        ensures
            self.flat().len() == self.length,
    {
    }

    /// A well-formed layout without elements has nothing in any slot.
    pub proof fn lemma_empty_state(self)
        requires
            self.wf(),
            self.length == 0,
        ensures
            self == Self::empty(),
    {
        if self.middle.len() > 0 {
            lemma_flatten_split(self.middle, 0);
            assert(self.middle[0].len() > 0);
        }
        assert(self.middle =~= Seq::<Seq<A>>::empty());
        assert(self.outer_f =~= Seq::<A>::empty());
        assert(self.inner_f =~= Seq::<A>::empty());
        assert(self.inner_b =~= Seq::<A>::empty());
        assert(self.outer_b =~= Seq::<A>::empty());
    }

    /// Pushing to the front keeps the layout well formed and puts the
    /// value before all other elements.
    pub proof fn lemma_push_front(self, value: A)
        requires
            self.wf(),
            self.length < usize::MAX,
        ensures
            self.push_front(value).wf(),
            self.push_front(value).flat() == seq![value] + self.flat(),
    {
        let shifted = self.shift_front();
        lemma_flatten_front(self.inner_f, self.middle);
        assert(shifted.wf());
        assert(shifted.flat() =~= self.flat());
        assert(self.push_front(value).flat() =~= seq![value] + shifted.flat());
    }

    /// Pushing to the back keeps the layout well formed and puts the value
    /// behind all other elements.
    pub proof fn lemma_push_back(self, value: A)
        requires
            self.wf(),
            self.length < usize::MAX,
        ensures
            self.push_back(value).wf(),
            self.push_back(value).flat() == self.flat().push(value),
    {
        let shifted = self.shift_back();
        lemma_flatten_back(self.middle, self.inner_b);
        assert(shifted.wf());
        assert(shifted.flat() =~= self.flat());
        assert(self.push_back(value).flat() =~= shifted.flat().push(value));
    }

    /// Refilling the outer front chunk keeps the elements, and leaves the
    /// chunk empty only in an empty layout.
    pub proof fn lemma_refill_front(self)
        requires
            self.wf(),
        ensures
            self.refill_front().wf(),
            self.refill_front().flat() == self.flat(),
            self.refill_front().length == self.length,
            self.length > 0 ==> self.refill_front().outer_f.len() > 0,
    {
        let filled = self.refill_front();
        if self.middle.len() > 0 {
            lemma_flatten_front(self.middle.first(), self.middle.drop_first());
            assert(seq![self.middle.first()] + self.middle.drop_first() =~= self.middle);
            assert(self.middle[0].len() > 0);
        } else {
            assert(self.middle.flatten() =~= Seq::<A>::empty());
        }
        assert(filled.flat() =~= self.flat());
    }

    /// Refilling the outer back chunk keeps the elements, and leaves the
    /// chunk empty only in an empty layout.
    pub proof fn lemma_refill_back(self)
        requires
            self.wf(),
        ensures
            self.refill_back().wf(),
            self.refill_back().flat() == self.flat(),
            self.refill_back().length == self.length,
            self.length > 0 ==> self.refill_back().outer_b.len() > 0,
    {
        let filled = self.refill_back();
        if self.middle.len() > 0 {
            lemma_flatten_back(self.middle.drop_last(), self.middle.last());
            assert(self.middle.drop_last().push(self.middle.last()) =~= self.middle);
            assert(self.middle[self.middle.len() - 1].len() > 0);
        } else {
            assert(self.middle.flatten() =~= Seq::<A>::empty());
        }
        assert(filled.flat() =~= self.flat());
    }

    /// Popping from the front keeps the layout well formed, yields the
    /// first element and leaves the others in order.
    pub proof fn lemma_pop_front(self)
        requires
            self.wf(),
            self.length > 0,
        ensures
            self.pop_front().1.wf(),
            self.pop_front().0 == self.flat().first(),
            self.pop_front().1.flat() == self.flat().drop_first(),
    {
        self.lemma_refill_front();
        let filled = self.refill_front();
        assert(self.pop_front().1.flat() =~= filled.flat().drop_first());
    }

    /// Popping from the back keeps the layout well formed, yields the last
    /// element and leaves the others in order.
    pub proof fn lemma_pop_back(self)
        requires
            self.wf(),
            self.length > 0,
        ensures
            self.pop_back().1.wf(),
            self.pop_back().0 == self.flat().last(),
            self.pop_back().1.flat() == self.flat().drop_last(),
    {
        self.lemma_refill_back();
        let filled = self.refill_back();
        assert(self.pop_back().1.flat() =~= filled.flat().drop_last());
    }

    /// Putting a chunk at the back of the middle adds its elements behind
    /// those of the middle.
    pub proof fn lemma_buffer_back(self, chunk: Seq<A>)
        requires
            self.middle_wf(),
            chunk.len() <= CHUNK_SIZE,
        ensures
            self.buffer_back(chunk).middle_wf(),
            self.buffer_back(chunk).middle.flatten() == self.middle.flatten() + chunk,
    {
        let after = self.buffer_back(chunk);
        if chunk.len() == 0 {
            assert(self.middle.flatten() + chunk =~= self.middle.flatten());
        } else if self.middle.len() > 0 && self.middle.last().len() + chunk.len() <= CHUNK_SIZE {
            let kept = self.middle.drop_last();
            lemma_flatten_back(kept, self.middle.last());
            lemma_flatten_back(kept, self.middle.last() + chunk);
            assert(kept.push(self.middle.last()) =~= self.middle);
            assert(after.middle.flatten() =~= self.middle.flatten() + chunk);
            assert(self.middle[self.middle.len() - 1].len() > 0);
        } else {
            lemma_flatten_back(self.middle, chunk);
        }
    }

    /// Putting a chunk at the front of the middle adds its elements before
    /// those of the middle.
    pub proof fn lemma_buffer_front(self, chunk: Seq<A>)
        requires
            self.middle_wf(),
            chunk.len() <= CHUNK_SIZE,
        ensures
            self.buffer_front(chunk).middle_wf(),
            self.buffer_front(chunk).middle.flatten() == chunk + self.middle.flatten(),
    {
        let after = self.buffer_front(chunk);
        if chunk.len() == 0 {
            assert(chunk + self.middle.flatten() =~= self.middle.flatten());
        } else if self.middle.len() > 0 && self.middle.first().len() + chunk.len() <= CHUNK_SIZE {
            let kept = self.middle.drop_first();
            lemma_flatten_front(self.middle.first(), kept);
            lemma_flatten_front(chunk + self.middle.first(), kept);
            assert(seq![self.middle.first()] + kept =~= self.middle);
            assert(after.middle.flatten() =~= chunk + self.middle.flatten());
            assert(self.middle[0].len() > 0);
            assert forall|i: int| 0 <= i < after.middle.len() implies 0 < (
            #[trigger] after.middle[i]).len() <= CHUNK_SIZE by {
                if i > 0 {
                    assert(after.middle[i] == self.middle[i]);
                }
            }
        } else {
            lemma_flatten_front(chunk, self.middle);
            assert forall|i: int| 0 <= i < after.middle.len() implies 0 < (
            #[trigger] after.middle[i]).len() <= CHUNK_SIZE by {
                if i > 0 {
                    assert(after.middle[i] == self.middle[i - 1]);
                }
            }
        }
    }

    /// Two joined middles hold the elements of the first followed by those
    /// of the second, in chunks that are neither empty nor over capacity.
    pub proof fn lemma_join_middles(first: Seq<Seq<A>>, second: Seq<Seq<A>>)
        requires
            chunks_wf(first),
            chunks_wf(second),
        ensures
            chunks_wf(Self::join_middles(first, second)),
            Self::join_middles(first, second).flatten() == first.flatten() + second.flatten(),
    {
        let joined = Self::join_middles(first, second);
        if first.len() > 0 && second.len() > 0 && first.last().len() + second.first().len()
            <= CHUNK_SIZE {
            let head = first.drop_last();
            let tail = second.drop_first();
            let merged = first.last() + second.first();
            lemma_flatten_back(head, first.last());
            lemma_flatten_back(head, merged);
            lemma_flatten_front(second.first(), tail);
            assert(head.push(first.last()) =~= first);
            assert(seq![second.first()] + tail =~= second);
            vstd::seq_lib::lemma_flatten_concat(head.push(merged), tail);
            assert(joined.flatten() =~= first.flatten() + second.flatten());
            assert(first[first.len() - 1].len() > 0);
            assert forall|i: int| 0 <= i < joined.len() implies 0 < (#[trigger] joined[i]).len()
                <= CHUNK_SIZE by {
                if i < head.len() {
                    assert(joined[i] == first[i]);
                } else if i > head.len() {
                    assert(joined[i] == second[i - head.len()]);
                }
            }
        } else {
            vstd::seq_lib::lemma_flatten_concat(first, second);
            assert forall|i: int| 0 <= i < joined.len() implies 0 < (#[trigger] joined[i]).len()
                <= CHUNK_SIZE by {
                if i < first.len() {
                    assert(joined[i] == first[i]);
                } else {
                    assert(joined[i] == second[i - first.len()]);
                }
            }
        }
    }

    /// Concatenation keeps the layout well formed and holds the elements of
    /// the first layout followed by those of the second.
    pub proof fn lemma_concat(self, other: Self)
        requires
            self.wf(),
            other.wf(),
            self.length + other.length <= usize::MAX,
        ensures
            self.concat(other).wf(),
            self.concat(other).flat() == self.flat() + other.flat(),
    {
        if other.length == 0 {
            other.lemma_flat_len();
            assert(self.flat() + other.flat() =~= self.flat());
        } else {
            let left1 = self.buffer_back(self.inner_b);
            let left = left1.buffer_back(self.outer_b);
            let right1 = other.buffer_front(other.inner_f);
            let right = right1.buffer_front(other.outer_f);
            self.lemma_buffer_back(self.inner_b);
            left1.lemma_buffer_back(self.outer_b);
            other.lemma_buffer_front(other.inner_f);
            right1.lemma_buffer_front(other.outer_f);
            Self::lemma_join_middles(left.middle, right.middle);
            let joined = self.concat(other);
            assert(left.middle.flatten() == self.middle.flatten() + self.inner_b + self.outer_b);
            assert(right.middle.flatten() == other.outer_f + (other.inner_f
                + other.middle.flatten()));
            assert(left.middle_length == self.middle_length + self.inner_b.len()
                + self.outer_b.len());
            assert(right.middle_length == other.middle_length + other.inner_f.len()
                + other.outer_f.len());
            assert(joined.middle_wf());
            assert(joined.wf());
            Self::lemma_joined_flat(self, other, joined);
        }
    }

    /// A layout that keeps the front slots of `left` and the back slots of
    /// `right`, and holds everything between them in its middle, holds the
    /// elements of `left` followed by those of `right`.
    pub proof fn lemma_joined_flat(left: Self, right: Self, joined: Self)
        requires
            joined.outer_f == left.outer_f,
            joined.inner_f == left.inner_f,
            joined.middle.flatten() == (left.middle.flatten() + left.inner_b + left.outer_b) + (
            right.outer_f + (right.inner_f + right.middle.flatten())),
            joined.inner_b == right.inner_b,
            joined.outer_b == right.outer_b,
        ensures
            joined.flat() == left.flat() + right.flat(),
    {
        assert(joined.flat() =~= left.flat() + right.flat());
    }
}

/// `chunk_at` finds a chunk of the list, and the element at `offset` lies
/// in that chunk.
pub proof fn lemma_chunk_at_holds<A>(chunks: Seq<Seq<A>>, offset: int)
    requires
        0 <= offset < chunks.flatten().len(),
    ensures
        0 <= chunk_at(chunks, offset) < chunks.len(),
        prefix_len(chunks, chunk_at(chunks, offset)) <= offset < prefix_len(
            chunks,
            chunk_at(chunks, offset),
        ) + chunks[chunk_at(chunks, offset)].len(),
    decreases chunks.len(),
{
    if chunks.len() == 0 {
    } else if offset < chunks.first().len() {
        assert(chunks.take(0).flatten() =~= Seq::<A>::empty());
    } else {
        let rest = chunks.drop_first();
        let inner = offset - chunks.first().len();
        lemma_chunk_at_holds(rest, inner);
        let k = chunk_at(rest, inner);
        assert(chunks.take(k + 1) =~= seq![chunks.first()] + rest.take(k));
        lemma_flatten_front(chunks.first(), rest.take(k));
        assert(rest[k] == chunks[k + 1]);
    }
}

impl<A> Layout<A> {
    /// A split inside the outer front chunk.
    proof fn lemma_split_outer_f(self, index: int)
        requires
            self.wf(),
            0 <= index < self.outer_f.len(),
        ensures
            self.split(index).0.wf(),
            self.split(index).1.wf(),
            self.split(index).0.flat() + self.split(index).1.flat() == self.flat(),
            self.split(index).0.flat().len() == index,
    {
        let (left, right) = self.split(index);
        let none = Seq::<Seq<A>>::empty();
        assert(none.flatten() =~= Seq::<A>::empty());
        assert(self.outer_f.take(index) + self.outer_f.skip(index) =~= self.outer_f);
        assert(left.flat() =~= self.outer_f.take(index));
        assert(left.flat() + right.flat() =~= self.flat());
    }

    /// A split inside the inner front chunk.
    proof fn lemma_split_inner_f(self, index: int)
        requires
            self.wf(),
            self.outer_f.len() <= index < self.outer_f.len() + self.inner_f.len(),
        ensures
            self.split(index).0.wf(),
            self.split(index).1.wf(),
            self.split(index).0.flat() + self.split(index).1.flat() == self.flat(),
            self.split(index).0.flat().len() == index,
    {
        let (left, right) = self.split(index);
        let cut = index - self.outer_f.len();
        let none = Seq::<Seq<A>>::empty();
        assert(none.flatten() =~= Seq::<A>::empty());
        assert(self.inner_f.take(cut) + self.inner_f.skip(cut) =~= self.inner_f);
        assert(left.flat() =~= self.outer_f + self.inner_f.take(cut));
        assert(right.flat() =~= self.inner_f.skip(cut) + self.middle.flatten() + self.inner_b
            + self.outer_b);
        assert(left.flat() + right.flat() =~= self.flat());
    }

    /// A split inside a chunk of the middle.
    proof fn lemma_split_middle(self, index: int)
        requires
            self.wf(),
            self.outer_f.len() + self.inner_f.len() <= index < self.outer_f.len()
                + self.inner_f.len() + self.middle_length,
        ensures
            self.split(index).0.wf(),
            self.split(index).1.wf(),
            self.split(index).0.flat() + self.split(index).1.flat() == self.flat(),
            self.split(index).0.flat().len() == index,
    {
        let (left, right) = self.split(index);
        let b = self.outer_f.len() + self.inner_f.len();
        let k = chunk_at(self.middle, index - b);
        lemma_chunk_at_holds(self.middle, index - b);
        lemma_flatten_split(self.middle, k);
        let cut = index - b - prefix_len(self.middle, k);
        let chunk = self.middle[k];
        assert(chunk.take(cut) + chunk.skip(cut) =~= chunk);
        assert(chunk.len() <= CHUNK_SIZE);
        assert(chunks_wf(left.middle));
        assert(chunks_wf(right.middle)) by {
            assert forall|i: int| 0 <= i < right.middle.len() implies 0 < (
            #[trigger] right.middle[i]).len() <= CHUNK_SIZE by {
                assert(right.middle[i] == self.middle[k + 1 + i]);
            }
        }
        assert(left.wf());
        assert(right.wf());
        let before = self.middle.take(k).flatten();
        let after = self.middle.skip(k + 1).flatten();
        assert(left.flat() =~= self.outer_f + self.inner_f + before + chunk.take(cut));
        assert(right.flat() =~= chunk.skip(cut) + after + self.inner_b + self.outer_b);
        assert(self.flat() =~= self.outer_f + self.inner_f + (before + chunk + after)
            + self.inner_b + self.outer_b);
        assert(left.flat() + right.flat() =~= self.outer_f + self.inner_f + (before + (
        chunk.take(cut) + chunk.skip(cut)) + after) + self.inner_b + self.outer_b);
    }

    /// A split inside the inner back chunk.
    proof fn lemma_split_inner_b(self, index: int)
        requires
            self.wf(),
            self.outer_f.len() + self.inner_f.len() + self.middle_length <= index
                < self.outer_f.len() + self.inner_f.len() + self.middle_length
                + self.inner_b.len(),
        ensures
            self.split(index).0.wf(),
            self.split(index).1.wf(),
            self.split(index).0.flat() + self.split(index).1.flat() == self.flat(),
            self.split(index).0.flat().len() == index,
    {
        let (left, right) = self.split(index);
        let cut = index - (self.outer_f.len() + self.inner_f.len() + self.middle_length);
        let none = Seq::<Seq<A>>::empty();
        assert(none.flatten() =~= Seq::<A>::empty());
        assert(self.inner_b.take(cut) + self.inner_b.skip(cut) =~= self.inner_b);
        assert(left.flat() =~= self.outer_f + self.inner_f + self.middle.flatten()
            + self.inner_b.take(cut));
        assert(right.flat() =~= self.inner_b.skip(cut) + self.outer_b);
        assert(left.flat() + right.flat() =~= self.flat());
    }

    /// A split inside the outer back chunk.
    proof fn lemma_split_outer_b(self, index: int)
        requires
            self.wf(),
            self.outer_f.len() + self.inner_f.len() + self.middle_length + self.inner_b.len()
                <= index < self.length,
        ensures
            self.split(index).0.wf(),
            self.split(index).1.wf(),
            self.split(index).0.flat() + self.split(index).1.flat() == self.flat(),
            self.split(index).0.flat().len() == index,
    {
        let (left, right) = self.split(index);
        let cut = index - (self.outer_f.len() + self.inner_f.len() + self.middle_length
            + self.inner_b.len());
        let none = Seq::<Seq<A>>::empty();
        assert(none.flatten() =~= Seq::<A>::empty());
        assert(self.outer_b.take(cut) + self.outer_b.skip(cut) =~= self.outer_b);
        assert(left.flat() =~= self.outer_f + self.inner_f + self.middle.flatten()
            + self.inner_b + self.outer_b.take(cut));
        assert(right.flat() =~= self.outer_b.skip(cut));
        assert(left.flat() + right.flat() =~= self.flat());
    }

    /// Both layouts of a split are well formed, and they hold the elements
    /// before `index` and those from `index` on.
    pub proof fn lemma_split(self, index: int)
        requires
            self.wf(),
            0 <= index < self.length,
        ensures
            self.split(index).0.wf(),
            self.split(index).1.wf(),
            self.split(index).0.flat() == self.flat().take(index),
            self.split(index).1.flat() == self.flat().skip(index),
    {
        let a = self.outer_f.len();
        let b = a + self.inner_f.len();
        let c = b + self.middle_length;
        let d = c + self.inner_b.len();
        if index < a {
            self.lemma_split_outer_f(index);
        } else if index < b {
            self.lemma_split_inner_f(index);
        } else if index < c {
            self.lemma_split_middle(index);
        } else if index < d {
            self.lemma_split_inner_b(index);
        } else {
            self.lemma_split_outer_b(index);
        }
        lemma_cut(self.flat(), self.split(index).0.flat(), self.split(index).1.flat());
    }

    /// The layout built from a list of elements is well formed and holds
    /// those elements in order.
    pub proof fn lemma_from_seq(items: Seq<A>)
        requires
            items.len() <= usize::MAX,
        ensures
            Self::from_seq(items).wf(),
            Self::from_seq(items).flat() == items,
            Self::from_seq(items).length == items.len(),
        decreases items.len(),
    {
        if items.len() == 0 {
            let none = Seq::<Seq<A>>::empty();
            assert(none.flatten() =~= Seq::<A>::empty());
            assert(Self::empty().flat() =~= items);
        } else {
            Self::lemma_from_seq(items.drop_last());
            Self::from_seq(items.drop_last()).lemma_push_back(items.last());
            assert(items.drop_last().push(items.last()) =~= items);
        }
    }
}

} // verus!
