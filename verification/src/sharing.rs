//! Copy-on-write access to reference-counted values, and what it means for
//! a type to clone exactly.

use std::sync::Arc;
use vstd::prelude::*;

verus! {

/// Every clone of a value of `A` equals the value it was cloned from.
///
/// Nothing forces an impl of `Clone` to return an equal value.  The
/// contracts of the sequence pin down which elements it holds for the
/// element types that do.
pub open spec fn exact_clone<A: Clone>() -> bool {
    forall|a: A, b: A| #[trigger] cloned::<A>(a, b) ==> a == b
}

/// `dst` has the length of `src`, and each of its elements is the element of
/// `src` at the same place or a clone of it.
pub open spec fn copied<A: Clone>(src: Seq<A>, dst: Seq<A>) -> bool {
    &&& src.len() == dst.len()
    &&& forall|i: int| 0 <= i < src.len() ==> cloned::<A>(src[i], #[trigger] dst[i])
}

/// Under exact cloning an elementwise copy is the sequence itself.
pub proof fn lemma_copied_exact<A: Clone>(src: Seq<A>, dst: Seq<A>)
    requires
        exact_clone::<A>(),
        copied(src, dst),
    ensures
        src == dst,
{
    assert(src =~= dst);
}

/// `Arc::make_mut`: a mutable borrow of the value behind `this`.  Where
/// other pointers share the value, `this` is first pointed at a clone of it,
/// so the borrowed value is the old one or a clone of the old one.  What the
/// caller leaves in the borrow is what `this` holds afterwards.
#[verifier::external_body]
pub(crate) fn make_mut<T: Clone>(this: &mut Arc<T>) -> (r: &mut T)
    ensures
        cloned::<T>(**old(this), *r),
        **final(this) == *final(r),
{
    Arc::make_mut(this)
}

} // verus!
