use vstd::prelude::*;

verus! {

/// A value handed between threads on the caller's word.
pub struct AssumeSend<T>(T);

impl<T> AssumeSend<T> {
    /// The wrapped value.
    pub closed spec fn inner(&self) -> T {
        self.0
    }

    /// Wraps `v`.
    pub fn new(v: T) -> (r: Self)
        ensures
            r.inner() == v,
    {
        Self(v)
    }

    /// The wrapped value, consuming the wrapper.
    pub fn into_inner(self) -> (r: T)
        ensures
            r == self.inner(),
    {
        self.0
    }
}

} // verus!
