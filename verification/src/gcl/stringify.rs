//! A value that travels as its text.
use vstd::prelude::*;

verus! {

/// A value that is exchanged as its textual form.
pub struct Stringify<T>(pub T);

impl<T> Stringify<T> {
    /// Wraps `t`.
    pub fn new(t: T) -> (r: Self)
        ensures
            r.0 == t,
    {
        Stringify(t)
    }

    /// The wrapped value.
    pub fn inner(&self) -> (r: &T)
        ensures
            *r == self.0,
    {
        &self.0
    }
}

} // verus!
