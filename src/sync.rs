use vstd::prelude::*;

verus! {

/// A value behind one exclusive access point, for a single hart: whoever holds the
/// cell mutably reaches the value, and nobody else does meanwhile.
pub struct UPSafeCell<T> {
    inner: T,
}

impl<T> UPSafeCell<T> {
    /// The value inside.
    pub closed spec fn view(&self) -> T {
        self.inner
    }

    /// A cell holding `value`.
    pub fn new(value: T) -> (r: UPSafeCell<T>)
        ensures
            r@ == value,
    {
        UPSafeCell { inner: value }
    }

    /// Mutable access to the value; the cell holds whatever the borrow leaves in it.
    pub fn exclusive_access(&mut self) -> (r: &mut T)
        ensures
            *r == old(self)@,
            final(self)@ == *final(r),
    {
        &mut self.inner
    }

    /// Shared access to the value.
    pub fn get(&self) -> (r: &T)
        ensures
            *r == self@,
    {
        &self.inner
    }
}

} // verus!
