//! Forward traversal of a sequence.

use crate::chunk::Chunk;
use crate::raw_seq::RawSeq;
use std::sync::Arc;
use vstd::prelude::*;

verus! {

/// The slot that a traversal is in.
enum Section {
    OuterF,
    InnerF,
    Middle,
    InnerB,
    OuterB,
}

/// A traversal of one version of a sequence, from front to back.  It holds
/// that version, so later changes to the sequence it was made from do not
/// reach it.
pub struct Iter<A> {
    seq: RawSeq<A>,
    section: Section,
    mid_index: usize,
    index: usize,
    chunk: Arc<Chunk<A>>,
}

impl<A> View for Iter<A> {
    type V = Seq<A>;

    /// The elements still to come, in order.
    closed spec fn view(&self) -> Seq<A> {
        let layout = self.seq.layout();
        let here = self.chunk@.skip(self.index as int);
        match self.section {
            Section::OuterF => here + layout.inner_f + layout.middle.flatten() + layout.inner_b
                + layout.outer_b,
            Section::InnerF => here + layout.middle.flatten() + layout.inner_b + layout.outer_b,
            Section::Middle => here + layout.middle.skip(self.mid_index + 1).flatten()
                + layout.inner_b + layout.outer_b,
            Section::InnerB => here + layout.outer_b,
            Section::OuterB => here,
        }
    }
}

impl<A> Iter<A> {
    /// The traversal stands in a chunk of its sequence, at or before the
    /// chunk's end.
    pub closed spec fn wf(&self) -> bool {
        let layout = self.seq.layout();
        &&& self.seq.wf()
        &&& self.index <= self.chunk@.len()
        &&& match self.section {
            Section::OuterF => self.chunk@ == layout.outer_f,
            Section::InnerF => self.chunk@ == layout.inner_f,
            Section::Middle => self.mid_index < layout.middle.len() && self.chunk@
                == layout.middle[self.mid_index as int],
            Section::InnerB => self.chunk@ == layout.inner_b,
            Section::OuterB => self.chunk@ == layout.outer_b,
        }
    }

    /// How many more times the traversal can move on to another chunk.
    pub closed spec fn moves_left(&self) -> nat {
        let chunks = self.seq.layout().middle.len();
        match self.section {
            Section::OuterF => chunks + 3,
            Section::InnerF => chunks + 2,
            Section::Middle => (chunks - self.mid_index + 1) as nat,
            Section::InnerB => 1,
            Section::OuterB => 0,
        }
    }

    /// A traversal of `seq` from its first element.
    pub fn new(seq: &RawSeq<A>) -> (r: Self)
        requires
            seq.wf(),
        ensures
            r.wf(),
            r@ == seq@,
    {
        let r = Iter {
            seq: seq.clone(),
            section: Section::OuterF,
            mid_index: 0,
            index: 0,
            chunk: seq.front_outer().clone(),
        };
        assert(r.chunk@.skip(0) =~= r.chunk@);
        r
    }
}

impl<A: Clone> Iter<A> {
    /// A clone of the next element, or `None` at the end.
    #[verifier::rlimit(30)]
    pub fn next(&mut self) -> (r: Option<A>)
        requires
            old(self).wf(),
        ensures
            final(self).wf(),
            r.is_some() == (old(self)@.len() > 0),
            r.is_some() ==> cloned::<A>(old(self)@.first(), r.unwrap()) && final(self)@ == old(
                self,
            )@.drop_first(),
            r.is_none() ==> final(self)@ == old(self)@,
        decreases old(self).moves_left(),
    {
        if self.index < self.chunk.len() {
            let value = Some(self.chunk.get(self.index).clone());
            self.index += 1;
            proof {
                assert(self@ =~= old(self)@.drop_first());
            }
            return value;
        }
        proof {
            assert(self.chunk@.skip(self.index as int) =~= Seq::<A>::empty());
        }
        let ghost layout = self.seq.layout();
        match self.section {
            Section::OuterF => {
                self.section = Section::InnerF;
                self.index = 0;
                self.chunk = self.seq.front_inner().clone();
                proof {
                    assert(self.chunk@.skip(0) =~= self.chunk@);
                    assert(self@ =~= old(self)@);
                }
                self.next()
            },
            Section::InnerF => {
                self.index = 0;
                if self.seq.middle_chunks() > 0 {
                    self.section = Section::Middle;
                    self.mid_index = 0;
                    self.chunk = self.seq.middle_chunk(0).clone();
                    proof {
                        crate::layout::lemma_flatten_split(layout.middle, 0);
                        assert(layout.middle.take(0).flatten() =~= Seq::<A>::empty());
                    }
                } else {
                    self.section = Section::InnerB;
                    self.chunk = self.seq.back_inner().clone();
                    proof {
                        assert(layout.middle.flatten() =~= Seq::<A>::empty());
                    }
                }
                proof {
                    assert(self.chunk@.skip(0) =~= self.chunk@);
                    assert(self@ =~= old(self)@);
                }
                self.next()
            },
            Section::Middle => {
                let chunks = self.seq.middle_chunks();
                self.mid_index += 1;
                self.index = 0;
                if self.mid_index < chunks {
                    self.chunk = self.seq.middle_chunk(self.mid_index).clone();
                    proof {
                        let rest = layout.middle.skip(self.mid_index as int);
                        crate::layout::lemma_flatten_split(rest, 0);
                        assert(rest.take(0).flatten() =~= Seq::<A>::empty());
                        assert(rest.skip(1) =~= layout.middle.skip(self.mid_index + 1));
                    }
                } else {
                    self.section = Section::InnerB;
                    self.chunk = self.seq.back_inner().clone();
                    proof {
                        assert(layout.middle.skip(self.mid_index as int).flatten()
                            =~= Seq::<A>::empty());
                    }
                }
                proof {
                    assert(self.chunk@.skip(0) =~= self.chunk@);
                    assert(self@ =~= old(self)@);
                }
                self.next()
            },
            Section::InnerB => {
                self.section = Section::OuterB;
                self.index = 0;
                self.chunk = self.seq.back_outer().clone();
                proof {
                    assert(self.chunk@.skip(0) =~= self.chunk@);
                    assert(self@ =~= old(self)@);
                }
                self.next()
            },
            Section::OuterB => None,
        }
    }
}

} // verus!
