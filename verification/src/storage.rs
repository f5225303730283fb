//! Trusted boundary around the small-buffer vector that stores the steps.
//!
//! The pattern's steps live in a `smallvec::SmallVec<[bool; 64]>` so that
//! short patterns need no heap allocation.  Verus does not read smallvec, so
//! the vector is held in an opaque struct, its contents are given a name,
//! `steps_of`, and each method the library calls is wrapped in a function
//! whose contract states, over that name, what the crate's source shows the
//! method does.

use vstd::prelude::*;
use smallvec::SmallVec;

verus! {

/// Holds the steps in a `smallvec::SmallVec`, inline up to 64 steps and on
/// the heap beyond.  Opaque to the verifier; `steps_of` names its contents.
#[verifier::external_body]
pub struct StepVec {
    buf: SmallVec<[bool; 64]>,
}

/// The boolean steps held by the backing vector, in order.
pub uninterp spec fn steps_of(v: StepVec) -> Seq<bool>;

/// Relies on smallvec::SmallVec::new: a freshly created vector is empty.
#[verifier::external_body]
pub(crate) fn sv_new() -> (r: StepVec)
    ensures
        steps_of(r) == Seq::<bool>::empty(),
{
    StepVec { buf: SmallVec::new() }
}

/// Relies on smallvec::SmallVec::push: appends one element at the end.
#[verifier::external_body]
pub(crate) fn sv_push(v: &mut StepVec, b: bool)
    ensures
        steps_of(*final(v)) == steps_of(*old(v)).push(b),
{
    v.buf.push(b)
}

/// Relies on smallvec::SmallVec::clear: removes every element.
#[verifier::external_body]
pub(crate) fn sv_clear(v: &mut StepVec)
    ensures
        steps_of(*final(v)) == Seq::<bool>::empty(),
{
    v.buf.clear()
}

/// Relies on smallvec::SmallVec::from_slice: copies the slice's elements
/// in order (the element type is `Copy`).
#[verifier::external_body]
pub(crate) fn sv_from_slice(s: &[bool]) -> (r: StepVec)
    ensures
        steps_of(r) == s@,
{
    StepVec { buf: SmallVec::from_slice(s) }
}

/// Relies on smallvec::SmallVec::resize: truncates to the new length, or
/// extends it by filling the new slots with the given value.
#[verifier::external_body]
pub(crate) fn sv_resize(v: &mut StepVec, n: usize, b: bool)
    ensures
        steps_of(*final(v)) == if n <= steps_of(*old(v)).len() {
            steps_of(*old(v)).take(n as int)
        } else {
            steps_of(*old(v)) + Seq::new((n - steps_of(*old(v)).len()) as nat, |i: int| b)
        },
{
    v.buf.resize(n, b)
}

/// Relies on smallvec::SmallVec::len: the number of elements held.
#[verifier::external_body]
pub(crate) fn sv_len(v: &StepVec) -> (r: usize)
    ensures
        r == steps_of(*v).len(),
{
    v.buf.len()
}

/// Relies on slice indexing through smallvec::SmallVec's Deref to a slice
/// of all elements in order.
#[verifier::external_body]
pub(crate) fn sv_get(v: &StepVec, i: usize) -> (r: bool)
    requires
        i < steps_of(*v).len(),
    ensures
        r == steps_of(*v)[i as int],
{
    v.buf[i]
}

/// Relies on smallvec::SmallVec::as_slice: a slice of all elements in order.
#[verifier::external_body]
pub(crate) fn sv_as_slice(v: &StepVec) -> (r: &[bool])
    ensures
        r@ == steps_of(*v),
{
    v.buf.as_slice()
}

/// Relies on slice::rotate_right through smallvec::SmallVec's DerefMut:
/// the last `k` elements move to the front, the rest move to the end.
#[verifier::external_body]
pub(crate) fn sv_rotate_right(v: &mut StepVec, k: usize)
    requires
        k <= steps_of(*old(v)).len(),
    ensures
        steps_of(*final(v)) == steps_of(*old(v)).subrange(
            steps_of(*old(v)).len() - k,
            steps_of(*old(v)).len() as int,
        ) + steps_of(*old(v)).subrange(0, steps_of(*old(v)).len() - k),
{
    v.buf.rotate_right(k)
}

/// Relies on slice::rotate_left through smallvec::SmallVec's DerefMut:
/// the first `k` elements move to the end, the rest move to the front.
#[verifier::external_body]
pub(crate) fn sv_rotate_left(v: &mut StepVec, k: usize)
    requires
        k <= steps_of(*old(v)).len(),
    ensures
        steps_of(*final(v)) == steps_of(*old(v)).subrange(
            k as int,
            steps_of(*old(v)).len() as int,
        ) + steps_of(*old(v)).subrange(0, k as int),
{
    v.buf.rotate_left(k)
}

} // verus!
