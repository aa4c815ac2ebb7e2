//! Uniprocessor exclusive-access cell.
use vstd::prelude::*;

verus! {

/// Guards a process-wide structure on a machine with a single hardware
/// thread. Access goes through a scoped mutable handle; holding two handles
/// at once is ruled out by the borrow discipline of `exclusive_access`.
pub struct UPSafeCell<T> {
    inner: T,
}

impl<T> UPSafeCell<T> {
    /// The guarded value.
    pub closed spec fn value(&self) -> T {
        self.inner
    }

    pub fn new(value: T) -> (r: Self)
        ensures
            r.value() == value,
    {
        UPSafeCell { inner: value }
    }

    /// A scoped mutable handle on the guarded value; whatever is written
    /// through it is the cell's value once the handle is released.
    pub fn exclusive_access(&mut self) -> (r: &mut T)
        ensures
            *r == old(self).value(),
            final(self).value() == *final(r),
    {
        &mut self.inner
    }

    /// A shared view of the guarded value.
    pub fn get(&self) -> (r: &T)
        ensures
            *r == self.value(),
    {
        &self.inner
    }
}

} // verus!
