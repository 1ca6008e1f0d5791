//! The bounded LIFO store of pending sub-problems, kept in an
//! `arrayvec_const::ArrayVec` of fixed capacity.
use arrayvec_const::ArrayVec;
use vstd::prelude::*;

verus! {

/// Room for this many pending sub-problems in the backing array.
pub const STACK_CAPACITY: usize = 1024;

#[verifier::external_type_specification]
#[verifier::external_body]
#[verifier::reject_recursive_types(T)]
pub struct ExArrayVec<T, const CAP: usize>(ArrayVec<T, CAP>);

/// The pending sub-problems, each as (offset, length), bottom first.
pub uninterp spec fn pending(s: ArrayVec<(usize, usize), STACK_CAPACITY>) -> Seq<(usize, usize)>;

/// Relies on `ArrayVec::new`: an empty vector (it panics only for a capacity
/// above `u32::MAX`).
#[verifier::external_body]
pub(crate) fn stack_new() -> (r: ArrayVec<(usize, usize), STACK_CAPACITY>)
    ensures
        pending(r) == Seq::<(usize, usize)>::empty(),
{
    ArrayVec::new()
}

/// Relies on `ArrayVec::len`: the number of elements held.
#[verifier::external_body]
pub(crate) fn stack_len(s: &ArrayVec<(usize, usize), STACK_CAPACITY>) -> (r: usize)
    ensures
        r == pending(*s).len(),
{
    s.len()
}

/// Relies on `ArrayVec::try_push`: appends when fewer than the capacity are
/// held, else leaves the vector as it was and fails.
#[verifier::external_body]
pub(crate) fn stack_try_push(s: &mut ArrayVec<(usize, usize), STACK_CAPACITY>, task: (usize, usize)) -> (r: bool)
    ensures
        r == (pending(*old(s)).len() < STACK_CAPACITY),
        r ==> pending(*final(s)) == pending(*old(s)).push(task),
        !r ==> pending(*final(s)) == pending(*old(s)),
{
    s.try_push(task).is_ok()
}

/// Relies on `ArrayVec::pop`: removes and returns the last element, or
/// `None` when empty.
#[verifier::external_body]
pub(crate) fn stack_pop(s: &mut ArrayVec<(usize, usize), STACK_CAPACITY>) -> (r: Option<(usize, usize)>)
    ensures
        pending(*old(s)).len() == 0 ==> r.is_none() && pending(*final(s)) == pending(*old(s)),
        pending(*old(s)).len() > 0 ==> r == Some(pending(*old(s)).last())
            && pending(*final(s)) == pending(*old(s)).drop_last(),
{
    s.pop()
}

} // verus!
