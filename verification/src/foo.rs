//! A one-field container that hands out mutable borrows under contract.

use vstd::prelude::*;

verus! {

/// A box around a single value.
#[derive(Debug)]
pub struct Foo<T> {
    pub bar: T,
}

impl<T> Foo<T> {
    /// Wraps `bar`.
    pub fn new(bar: T) -> (f: Foo<T>)
        ensures
            f.bar == bar,
    {
        Foo { bar }
    }

    /// A mutable borrow of the held value: whatever the caller writes through
    /// it is what the container holds afterwards.
    pub fn peek_mut(&mut self) -> (r: &mut T)
        ensures
            *r == old(self).bar,
            final(self).bar == *final(r),
    {
        &mut self.bar
    }

    /// A mutable borrow of the container itself.
    pub fn self_mut(&mut self) -> (r: &mut Foo<T>)
        ensures
            *r == *old(self),
            *final(self) == *final(r),
    {
        &mut *self
    }
}

} // verus!
