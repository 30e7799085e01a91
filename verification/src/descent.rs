//! What a sequence holds after clones were taken of its elements: values
//! that descend from the ones that went in.

use crate::layout::Layout;
use crate::sharing::{copied, exact_clone};
use vstd::prelude::*;

verus! {

/// `b` is reached from `a` by `n` clones, each taken of the one before.
pub open spec fn cloned_times<A: Clone>(a: A, b: A, n: nat) -> bool
    decreases n,
{
    if n == 0 {
        a == b
    } else {
        exists|c: A| cloned_times(a, c, (n - 1) as nat) && cloned::<A>(c, b)
    }
}

/// `b` is `a`, or a clone of `a`, or a clone of a clone of `a`, and so on.
pub open spec fn descends<A: Clone>(a: A, b: A) -> bool {
    a == b || exists|n: nat| cloned_times(a, b, n)
}

/// A clone descends from the value it was taken of.
pub proof fn lemma_clone_descends<A: Clone>(a: A, b: A)
    requires
        cloned::<A>(a, b),
    ensures
        descends(a, b),
{
    assert(cloned_times(a, a, 0));
    assert(cloned_times(a, b, 1));
}

/// Clones taken one after the other add up.
proof fn lemma_cloned_times_join<A: Clone>(a: A, b: A, c: A, n: nat, m: nat)
    requires
        cloned_times(a, b, n),
        cloned_times(b, c, m),
    ensures
        cloned_times(a, c, n + m),
    decreases m,
{
    if m > 0 {
        let d = choose|d: A| cloned_times(b, d, (m - 1) as nat) && cloned::<A>(d, c);
        lemma_cloned_times_join(a, b, d, n, (m - 1) as nat);
        assert(cloned_times(a, d, (n + m - 1) as nat));
    }
}

/// What descends from a descendant of `a` descends from `a`.
pub proof fn lemma_descends_transitive<A: Clone>(a: A, b: A, c: A)
    requires
        descends(a, b),
        descends(b, c),
    ensures
        descends(a, c),
{
    if a != b && b != c {
        let n = choose|n: nat| cloned_times(a, b, n);
        let m = choose|m: nat| cloned_times(b, c, m);
        lemma_cloned_times_join(a, b, c, n, m);
    }
}

/// Under exact cloning no number of clones changes a value.
proof fn lemma_cloned_times_exact<A: Clone>(a: A, b: A, n: nat)
    requires
        exact_clone::<A>(),
        cloned_times(a, b, n),
    ensures
        a == b,
    decreases n,
{
    if n > 0 {
        let c = choose|c: A| cloned_times(a, c, (n - 1) as nat) && cloned::<A>(c, b);
        lemma_cloned_times_exact(a, c, (n - 1) as nat);
    }
}

/// Under exact cloning a value has no descendant but itself.
pub proof fn lemma_descends_exact<A: Clone>(a: A, b: A)
    requires
        exact_clone::<A>(),
        descends(a, b),
    ensures
        a == b,
{
    if a != b {
        let n = choose|n: nat| cloned_times(a, b, n);
        lemma_cloned_times_exact(a, b, n);
    }
}

/// `t` has the length of `s`, and each of its elements descends from the
/// element of `s` at the same place.
pub open spec fn seq_descends<A: Clone>(s: Seq<A>, t: Seq<A>) -> bool {
    &&& s.len() == t.len()
    &&& forall|i: int| 0 <= i < s.len() ==> descends(s[i], #[trigger] t[i])
}

/// `t` has as many chunks as `s`, and each of them descends from the chunk
/// of `s` at the same place.
pub open spec fn chunks_descend<A: Clone>(s: Seq<Seq<A>>, t: Seq<Seq<A>>) -> bool {
    &&& s.len() == t.len()
    &&& forall|i: int| 0 <= i < s.len() ==> seq_descends(s[i], #[trigger] t[i])
}

/// An elementwise copy descends from what it was copied from.
pub proof fn lemma_copied_descends<A: Clone>(s: Seq<A>, t: Seq<A>)
    requires
        copied(s, t),
    ensures
        seq_descends(s, t),
{
    assert forall|i: int| 0 <= i < s.len() implies descends(s[i], #[trigger] t[i]) by {
        lemma_clone_descends(s[i], t[i]);
    }
}

/// Elementwise, what descends from a descendant of `s` descends from `s`.
pub proof fn lemma_seq_descends_transitive<A: Clone>(s: Seq<A>, t: Seq<A>, u: Seq<A>)
    requires
        seq_descends(s, t),
        seq_descends(t, u),
    ensures
        seq_descends(s, u),
{
    assert forall|i: int| 0 <= i < s.len() implies descends(s[i], #[trigger] u[i]) by {
        assert(descends(s[i], t[i]));
        lemma_descends_transitive(s[i], t[i], u[i]);
    }
}

/// Under exact cloning a sequence has no descendant but itself.
pub proof fn lemma_seq_descends_exact<A: Clone>(s: Seq<A>, t: Seq<A>)
    requires
        exact_clone::<A>(),
        seq_descends(s, t),
    ensures
        s == t,
{
    assert forall|i: int| 0 <= i < s.len() implies s[i] == t[i] by {
        assert(descends(s[i], t[i]));
        lemma_descends_exact(s[i], t[i]);
    }
    assert(s =~= t);
}

/// Descent goes through concatenation.
pub proof fn lemma_seq_descends_concat<A: Clone>(s1: Seq<A>, t1: Seq<A>, s2: Seq<A>, t2: Seq<A>)
    requires
        seq_descends(s1, t1),
        seq_descends(s2, t2),
    ensures
        seq_descends(s1 + s2, t1 + t2),
{
    assert forall|i: int| 0 <= i < (s1 + s2).len() implies descends(
        (s1 + s2)[i],
        #[trigger] (t1 + t2)[i],
    ) by {
        if i < s1.len() {
            assert(descends(s1[i], t1[i]));
        } else {
            assert(descends(s2[i - s1.len()], t2[i - s1.len()]));
        }
    }
}

/// Chunk by chunk, what descends from a descendant of `s` descends from
/// `s`.
pub proof fn lemma_chunks_descend_transitive<A: Clone>(
    s: Seq<Seq<A>>,
    t: Seq<Seq<A>>,
    u: Seq<Seq<A>>,
)
    requires
        chunks_descend(s, t),
        chunks_descend(t, u),
    ensures
        chunks_descend(s, u),
{
    assert forall|i: int| 0 <= i < s.len() implies seq_descends(s[i], #[trigger] u[i]) by {
        assert(seq_descends(s[i], t[i]));
        lemma_seq_descends_transitive(s[i], t[i], u[i]);
    }
}

/// Descent of the chunks is descent of the elements in order.
pub proof fn lemma_flatten_descends<A: Clone>(s: Seq<Seq<A>>, t: Seq<Seq<A>>)
    requires
        chunks_descend(s, t),
    ensures
        seq_descends(s.flatten(), t.flatten()),
    decreases s.len(),
{
    if s.len() > 0 {
        assert(seq_descends(s[0], t[0]));
        assert(chunks_descend(s.drop_first(), t.drop_first())) by {
            assert forall|i: int| 0 <= i < s.drop_first().len() implies seq_descends(
                s.drop_first()[i],
                #[trigger] t.drop_first()[i],
            ) by {
                assert(seq_descends(s[i + 1], t[i + 1]));
            }
        }
        lemma_flatten_descends(s.drop_first(), t.drop_first());
        lemma_seq_descends_concat(
            s.first(),
            t.first(),
            s.drop_first().flatten(),
            t.drop_first().flatten(),
        );
    }
}

impl<A: Clone> Layout<A> {
    /// `other` has the shape of `self`, and each of its elements descends
    /// from the element of `self` at the same place.
    pub open spec fn descends_to(self, other: Self) -> bool {
        &&& self.length == other.length
        &&& self.middle_length == other.middle_length
        &&& seq_descends(self.outer_f, other.outer_f)
        &&& seq_descends(self.inner_f, other.inner_f)
        &&& chunks_descend(self.middle, other.middle)
        &&& seq_descends(self.inner_b, other.inner_b)
        &&& seq_descends(self.outer_b, other.outer_b)
    }

    /// A descendant of a descendant of a layout descends from the layout.
    pub proof fn lemma_descends_transitive(self, second: Self, third: Self)
        requires
            self.descends_to(second),
            second.descends_to(third),
        ensures
            self.descends_to(third),
    {
        lemma_seq_descends_transitive(self.outer_f, second.outer_f, third.outer_f);
        lemma_seq_descends_transitive(self.inner_f, second.inner_f, third.inner_f);
        lemma_chunks_descend_transitive(self.middle, second.middle, third.middle);
        lemma_seq_descends_transitive(self.inner_b, second.inner_b, third.inner_b);
        lemma_seq_descends_transitive(self.outer_b, second.outer_b, third.outer_b);
    }

    /// A layout that descends from a well-formed one is well formed, and
    /// its elements in order descend from those of the other.
    pub proof fn lemma_descends_flat(self, other: Self)
        requires
            self.descends_to(other),
        ensures
            seq_descends(self.flat(), other.flat()),
            self.wf() ==> other.wf(),
            self.middle_wf() ==> other.middle_wf(),
    {
        lemma_flatten_descends(self.middle, other.middle);
        lemma_seq_descends_concat(self.outer_f, other.outer_f, self.inner_f, other.inner_f);
        lemma_seq_descends_concat(
            self.outer_f + self.inner_f,
            other.outer_f + other.inner_f,
            self.middle.flatten(),
            other.middle.flatten(),
        );
        lemma_seq_descends_concat(
            self.outer_f + self.inner_f + self.middle.flatten(),
            other.outer_f + other.inner_f + other.middle.flatten(),
            self.inner_b,
            other.inner_b,
        );
        lemma_seq_descends_concat(
            self.outer_f + self.inner_f + self.middle.flatten() + self.inner_b,
            other.outer_f + other.inner_f + other.middle.flatten() + other.inner_b,
            self.outer_b,
            other.outer_b,
        );
        if self.middle_wf() {
            assert forall|i: int| 0 <= i < other.middle.len() implies 0 < (
            #[trigger] other.middle[i]).len() <= crate::chunk::CHUNK_SIZE by {
                assert(seq_descends(self.middle[i], other.middle[i]));
            }
        }
    }

    /// Under exact cloning a layout has no descendant but itself.
    pub proof fn lemma_descends_exact(self, other: Self)
        requires
            exact_clone::<A>(),
            self.descends_to(other),
        ensures
            self == other,
    {
        lemma_seq_descends_exact(self.outer_f, other.outer_f);
        lemma_seq_descends_exact(self.inner_f, other.inner_f);
        lemma_seq_descends_exact(self.inner_b, other.inner_b);
        lemma_seq_descends_exact(self.outer_b, other.outer_b);
        assert forall|i: int| 0 <= i < self.middle.len() implies self.middle[i]
            == other.middle[i] by {
            assert(seq_descends(self.middle[i], other.middle[i]));
            lemma_seq_descends_exact(self.middle[i], other.middle[i]);
        }
        assert(self.middle =~= other.middle);
        assert(self =~= other);
    }

    /// Pushing the same value to the back of a layout and of a descendant
    /// gives a layout and a descendant of it.
    pub proof fn lemma_push_back_descends(self, other: Self, value: A)
        requires
            self.descends_to(other),
        ensures
            self.push_back(value).descends_to(other.push_back(value)),
    {
        let pushed = self.push_back(value);
        let reached = other.push_back(value);
        assert(chunks_descend(pushed.middle, reached.middle)) by {
            assert forall|i: int| 0 <= i < pushed.middle.len() implies seq_descends(
                pushed.middle[i],
                #[trigger] reached.middle[i],
            ) by {
                if i < self.middle.len() {
                    assert(seq_descends(self.middle[i], other.middle[i]));
                }
            }
        }
        assert(seq_descends(pushed.outer_b, reached.outer_b)) by {
            let before = self.shift_back().outer_b;
            let after = other.shift_back().outer_b;
            assert(seq_descends(before, after));
            assert forall|i: int| 0 <= i < pushed.outer_b.len() implies descends(
                pushed.outer_b[i],
                #[trigger] reached.outer_b[i],
            ) by {
                if i < before.len() {
                    assert(descends(before[i], after[i]));
                }
            }
        }
    }

    /// Putting a chunk and a descendant of it at the back of the middle of
    /// a layout and of a descendant gives a layout and a descendant of it.
    pub proof fn lemma_buffer_back_descends(self, other: Self, chunk: Seq<A>, copy: Seq<A>)
        requires
            self.descends_to(other),
            seq_descends(chunk, copy),
        ensures
            self.buffer_back(chunk).descends_to(other.buffer_back(copy)),
    {
        let expected = self.buffer_back(chunk);
        let reached = other.buffer_back(copy);
        if chunk.len() > 0 {
            if self.middle.len() > 0 {
                assert(seq_descends(self.middle.last(), other.middle.last()));
                lemma_seq_descends_concat(
                    self.middle.last(),
                    other.middle.last(),
                    chunk,
                    copy,
                );
            }
            assert forall|i: int| 0 <= i < expected.middle.len() implies seq_descends(
                expected.middle[i],
                #[trigger] reached.middle[i],
            ) by {
                if i < self.middle.len() {
                    assert(seq_descends(self.middle[i], other.middle[i]));
                }
            }
        }
    }

    /// Putting a chunk and a descendant of it at the front of the middle of
    /// a layout and of a descendant gives a layout and a descendant of it.
    pub proof fn lemma_buffer_front_descends(self, other: Self, chunk: Seq<A>, copy: Seq<A>)
        requires
            self.descends_to(other),
            seq_descends(chunk, copy),
        ensures
            self.buffer_front(chunk).descends_to(other.buffer_front(copy)),
    {
        let expected = self.buffer_front(chunk);
        let reached = other.buffer_front(copy);
        if chunk.len() > 0 {
            if self.middle.len() > 0 {
                assert(seq_descends(self.middle.first(), other.middle.first()));
                lemma_seq_descends_concat(
                    chunk,
                    copy,
                    self.middle.first(),
                    other.middle.first(),
                );
            }
            assert forall|i: int| 0 <= i < expected.middle.len() implies seq_descends(
                expected.middle[i],
                #[trigger] reached.middle[i],
            ) by {
                if self.middle.len() > 0 && self.middle.first().len() + chunk.len()
                    <= crate::chunk::CHUNK_SIZE {
                    if i > 0 {
                        assert(seq_descends(self.middle[i], other.middle[i]));
                    }
                } else {
                    if i > 0 {
                        assert(seq_descends(self.middle[i - 1], other.middle[i - 1]));
                    }
                }
            }
        }
    }

    /// Joining two middles and joining descendants of them gives a list of
    /// chunks and a descendant of it.
    pub proof fn lemma_join_middles_descends(
        first: Seq<Seq<A>>,
        first_copy: Seq<Seq<A>>,
        second: Seq<Seq<A>>,
        second_copy: Seq<Seq<A>>,
    )
        requires
            chunks_descend(first, first_copy),
            chunks_descend(second, second_copy),
        ensures
            chunks_descend(
                Self::join_middles(first, second),
                Self::join_middles(first_copy, second_copy),
            ),
    {
        let expected = Self::join_middles(first, second);
        let reached = Self::join_middles(first_copy, second_copy);
        if first.len() > 0 {
            assert(seq_descends(first.last(), first_copy.last()));
        }
        if second.len() > 0 {
            assert(seq_descends(second.first(), second_copy.first()));
        }
        if first.len() > 0 && second.len() > 0 {
            lemma_seq_descends_concat(
                first.last(),
                first_copy.last(),
                second.first(),
                second_copy.first(),
            );
        }
        assert forall|i: int| 0 <= i < expected.len() implies seq_descends(
            expected[i],
            #[trigger] reached[i],
        ) by {
            if first.len() > 0 && second.len() > 0 && first.last().len() + second.first().len()
                <= crate::chunk::CHUNK_SIZE {
                if i < first.len() - 1 {
                    assert(seq_descends(first[i], first_copy[i]));
                } else if i >= first.len() {
                    let j = i - first.len() + 1;
                    assert(seq_descends(second[j], second_copy[j]));
                }
            } else {
                if i < first.len() {
                    assert(seq_descends(first[i], first_copy[i]));
                } else {
                    assert(seq_descends(second[i - first.len()], second_copy[i - first.len()]));
                }
            }
        }
    }
}

} // verus!
