//! A value that is changed only by those who name the wrapper.
use vstd::prelude::*;

verus! {

/// Holds a value that can be read freely. Whoever makes one, or changes what it holds, vouches
/// for the value.
#[derive(PartialEq, Eq, PartialOrd, Ord, Clone, Debug)]
pub struct Unsafe<T>(T);

impl<T> View for Unsafe<T> {
    type V = T;

    closed spec fn view(&self) -> T {
        self.0
    }
}

impl<T> Unsafe<T> {
    pub fn new(t: T) -> (wrapped: Self)
        ensures
            wrapped@ == t,
    {
        Unsafe(t)
    }

    pub fn as_mut(&mut self) -> (t: &mut T)
        ensures
            *t == old(self)@,
            final(self)@ == *final(t),
    {
        &mut self.0
    }

    pub fn take(self) -> (t: T)
        ensures
            t == self@,
    {
        self.0
    }
}

impl<T> std::ops::Deref for Unsafe<T> {
    type Target = T;

    fn deref(&self) -> (t: &T)
        ensures
            *t == self@,
    {
        &self.0
    }
}

} // verus!
