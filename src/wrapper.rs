use vstd::prelude::*;

verus! {

/// Holds an array, or a mutable borrow of an array or slice, and hands the
/// data out as one mutable slice.
pub struct Wrapper<T>(pub T);

impl<T, const N: usize> Wrapper<[T; N]> {
    /// The owned array as a mutable slice.
    pub fn as_mut_slice(&mut self) -> (r: &mut [T])
        ensures
            r@ == old(self).0@,
            final(self).0@ == final(r)@,
    {
        &mut self.0
    }
}

impl<'a, T> Wrapper<&'a mut [T]> {
    /// The borrowed slice itself.
    pub fn as_mut_slice(&mut self) -> (r: &mut [T])
        ensures
            r@ == old(self).0@,
            final(self).0@ == final(r)@,
    {
        self.0
    }
}

impl<'a, T, const N: usize> Wrapper<&'a mut [T; N]> {
    /// The borrowed array as a mutable slice.
    pub fn as_mut_slice(&mut self) -> (r: &mut [T])
        ensures
            r@ == old(self).0@,
            final(self).0@ == final(r)@,
    {
        self.0
    }
}

} // verus!
