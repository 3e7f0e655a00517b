//! A cell for data that only one hart touches at a time.
use vstd::prelude::*;

verus! {

/// Wraps a value that the kernel accesses from a single hart; an access hands
/// out a mutable reference to it.
pub struct UpSafeCell<T> {
    cell: T,
}

impl<T> UpSafeCell<T> {
    /// The value held.
    pub closed spec fn value(&self) -> T {
        self.cell
    }

    /// A cell holding `value`.
    pub fn new(value: T) -> (c: Self)
        ensures
            c.value() == value,
    {
        UpSafeCell { cell: value }
    }

    /// Mutable access to the value.
    pub fn exclusive_access(&mut self) -> (r: &mut T)
        ensures
            *r == old(self).value(),
            final(self).value() == *final(r),
    {
        &mut self.cell
    }

    /// Read access to the value.
    pub fn shared_access(&self) -> (r: &T)
        ensures
            *r == self.value(),
    {
        &self.cell
    }
}

} // verus!
