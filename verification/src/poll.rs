//! The outcome of asking for something that may not have arrived yet.
use vstd::prelude::*;

verus! {

/// Either a value, or nothing yet.
#[derive(Debug, Clone, Copy, PartialEq, Eq)]
pub enum Poll<T> {
    /// The value is here.
    Ready(T),
    /// The value may still arrive.
    Pending,
}

impl<T> Poll<T> {
    /// Whether the value is here.
    pub fn is_ready(&self) -> (r: bool)
        ensures
            r == (self is Ready),
    {
        match self {
            Poll::Ready(_) => true,
            Poll::Pending => false,
        }
    }

    /// Whether the value may still arrive.
    pub fn is_pending(&self) -> (r: bool)
        ensures
            r == (self is Pending),
    {
        !self.is_ready()
    }
}

} // verus!
