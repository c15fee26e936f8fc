use vstd::prelude::*;

verus! {

/// A value together with a count of the mutable accesses made to it.
pub struct Versioned<T> {
    value: T,
    version: u64,
}

impl<T> Versioned<T> {
    /// The wrapped value.
    pub closed spec fn value(&self) -> T {
        self.value
    }

    /// The number of counted mutable accesses.
    pub closed spec fn spec_version(&self) -> u64 {
        self.version
    }

    /// Wraps `v` at version 0.
    pub fn new(v: T) -> (r: Self)
        ensures
            r.value() == v,
            r.spec_version() == 0,
    {
        Self { value: v, version: 0 }
    }

    /// The wrapped value, consuming the wrapper.
    pub fn into_inner(self) -> (r: T)
        ensures
            r == self.value(),
    {
        self.value
    }

    /// The number of counted mutable accesses to `v`.
    pub fn version(v: &Self) -> (r: u64)
        ensures
            r == v.spec_version(),
    {
        v.version
    }

    /// Mutable access to the value that leaves the version as it is.
    pub fn get_silent(v: &mut Self) -> (r: &mut T)
        ensures
            *r == old(v).value(),
            final(v).value() == *final(r),
            final(v).spec_version() == old(v).spec_version(),
    {
        &mut v.value
    }

    /// Counts one more mutable access.
    pub fn increment_version(v: &mut Self)
        requires
            old(v).spec_version() < u64::MAX,
        ensures
            final(v).value() == old(v).value(),
            final(v).spec_version() == old(v).spec_version() + 1,
    {
        v.version += 1;
    }

    /// Shared access to the value.
    pub fn get(&self) -> (r: &T)
        ensures
            *r == self.value(),
    {
        &self.value
    }

    /// Mutable access to the value; counts one more mutable access, whether or not
    /// anything is written.
    pub fn get_mut(&mut self) -> (r: &mut T)
        requires
            old(self).spec_version() < u64::MAX,
        ensures
            *r == old(self).value(),
            final(self).value() == *final(r),
            final(self).spec_version() == old(self).spec_version() + 1,
    {
        self.version += 1;
        &mut self.value
    }
}

impl<T: Default> Default for Versioned<T> {
    fn default() -> (r: Self)
        ensures
            r.spec_version() == 0,
    {
        Self::new(T::default())
    }
}

impl<T> From<T> for Versioned<T> {
    fn from(value: T) -> (r: Self)
        ensures
            r.value() == value,
            r.spec_version() == 0,
    {
        Self::new(value)
    }
}

impl<T> vstd::std_specs::convert::FromSpecImpl<T> for Versioned<T> {
    open spec fn obeys_from_spec() -> bool {
        true
    }

    closed spec fn from_spec(v: T) -> Self {
        Versioned { value: v, version: 0 }
    }
}

} // verus!
