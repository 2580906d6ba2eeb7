//! A thin wrapper over an owned contiguous buffer.
//!
//! The wrapper adds no semantics of its own: it hands out an explicit read
//! view and an explicit write view of the backing buffer, and every
//! slice-style operation stays available on those views.

use vstd::prelude::*;

verus! {

/// An owned contiguous buffer behind explicit accessor methods.
#[derive(Debug, Clone, PartialEq)]
pub struct MyVec<T> {
    data: Vec<T>,
}

impl<T> View for MyVec<T> {
    type V = Seq<T>;

    closed spec fn view(&self) -> Seq<T> {
        self.data@
    }
}

impl<T> MyVec<T> {
    /// Take ownership of a buffer.
    pub fn new(v: Vec<T>) -> (r: Self)
        ensures
            r@ == v@,
    {
        MyVec { data: v }
    }

    /// A read view over the backing buffer.
    pub fn as_slice(&self) -> (r: &[T])
        ensures
            r@ == self@,
    {
        self.data.as_slice()
    }

    /// A write view over the backing buffer.
    pub fn as_mut_slice(&mut self) -> (r: &mut [T])
        ensures
            r@ == old(self)@,
            final(self)@ == final(r)@,
    {
        self.data.as_mut_slice()
    }

    /// How many items the buffer holds.
    pub fn len(&self) -> (n: usize)
        ensures
            n == self@.len(),
    {
        self.data.len()
    }
}

} // verus!
