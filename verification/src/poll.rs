use vstd::prelude::*;

verus! {

/// The outcome of polling a future once: a value, or "not yet".
#[derive(Debug)]
pub enum Poll<T> {
    Ready(T),
    Pending,
}

impl<T> Poll<T> {
    /// Whether the poll produced a value.
    pub fn is_ready(&self) -> (b: bool)
        ensures
            b == (*self is Ready),
    {
        match self {
            Poll::Ready(_) => true,
            Poll::Pending => false,
        }
    }

    /// Whether the poll asked to be woken later.
    pub fn is_pending(&self) -> (b: bool)
        ensures
            b == (*self is Pending),
    {
        match self {
            Poll::Ready(_) => false,
            Poll::Pending => true,
        }
    }
}

} // verus!
