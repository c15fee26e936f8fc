use vstd::prelude::*;

verus! {

/// A vector of at most `C` elements.
pub struct StackVec<T, const C: usize> {
    buf: Vec<T>,
}

impl<T, const C: usize> View for StackVec<T, C> {
    type V = Seq<T>;

    closed spec fn view(&self) -> Seq<T> {
        self.buf@
    }
}

impl<T, const C: usize> StackVec<T, C> {
    /// At most `C` elements are held.
    pub closed spec fn wf(&self) -> bool {
        self.buf@.len() <= C
    }

    /// The empty vector.
    pub fn new() -> (r: Self)
        ensures
            r.wf(),
            r@ == Seq::<T>::empty(),
    {
        Self { buf: Vec::new() }
    }

    /// The number of elements.
    pub fn len(&self) -> (r: usize)
        requires
            self.wf(),
        ensures
            r == self@.len(),
            r <= C,
    {
        self.buf.len()
    }

    /// Appends `v`; hands `v` back where the vector already holds `C` elements.
    pub fn push(&mut self, v: T) -> (r: Result<(), T>)
        requires
            old(self).wf(),
        ensures
            final(self).wf(),
            old(self)@.len() == C ==> r == Err::<(), T>(v) && final(self)@ == old(self)@,
            old(self)@.len() < C ==> r is Ok && final(self)@ == old(self)@.push(v),
    {
        if self.buf.len() == C {
            return Err(v);
        }
        self.buf.push(v);
        Ok(())
    }

    /// Removes and returns the last element, if any.
    pub fn pop(&mut self) -> (r: Option<T>)
        requires
            old(self).wf(),
        ensures
            final(self).wf(),
            old(self)@.len() == 0 ==> r is None && final(self)@ == old(self)@,
            old(self)@.len() > 0 ==> r == Some(old(self)@.last()) && final(self)@
                == old(self)@.drop_last(),
    {
        self.buf.pop()
    }

    /// Element `i`, if there is one.
    pub fn get(&self, i: usize) -> (r: Option<&T>)
        ensures
            i < self@.len() ==> r == Some(&self@[i as int]),
            i >= self@.len() ==> r is None,
    {
        if i >= self.buf.len() {
            return None;
        }
        Some(&self.buf[i])
    }

    /// Element `i`, if there is one, mutably borrowed.
    pub fn get_mut(&mut self, i: usize) -> (r: Option<&mut T>)
        requires
            old(self).wf(),
        ensures
            final(self).wf(),
            i >= old(self)@.len() ==> r is None && final(self)@ == old(self)@,
            i < old(self)@.len() ==> r is Some && *r->0 == old(self)@[i as int] && final(self)@
                == old(self)@.update(i as int, *final(r->0)),
    {
        if i >= self.buf.len() {
            return None;
        }
        Some(&mut self.buf[i])
    }

    /// Element `index`; `index` must be below the length.
    pub fn index(&self, index: usize) -> (r: &T)
        requires
            index < self@.len(),
        ensures
            *r == self@[index as int],
    {
        &self.buf[index]
    }

    /// The elements as a slice.
    pub fn as_slice(&self) -> (r: &[T])
        ensures
            r@ == self@,
    {
        self.buf.as_slice()
    }

    /// Element `index`, mutably borrowed; `index` must be below the length.
    pub fn index_mut(&mut self, index: usize) -> (r: &mut T)
        requires
            index < old(self)@.len(),
        ensures
            *r == old(self)@[index as int],
            final(self)@ == old(self)@.update(index as int, *final(r)),
    {
        &mut self.buf[index]
    }
}

} // verus!
