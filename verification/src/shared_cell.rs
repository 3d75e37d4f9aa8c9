//! The copy-on-write ownership primitive beneath the persistent containers.

use vstd::prelude::*;

verus! {

/// A cell holding exactly one logical value. Reads borrow the value without
/// copying; every mutation funnels through an exclusive replacement, so a
/// mutation through one owner is never observed through another. Storage
/// sharing between owners is an internal efficiency matter: no identity is
/// observable beyond the value itself, and every contract speaks only of the
/// logical value.
pub struct SharedCell<T> {
    value: T,
}

impl<T> View for SharedCell<T> {
    type V = T;

    closed spec fn view(&self) -> T {
        self.value
    }
}

impl<T> SharedCell<T> {
    /// Creates a cell holding `value`.
    pub fn new(value: T) -> (c: Self)
        ensures
            c@ == value,
    {
        SharedCell { value }
    }

    /// Borrows the logical value. Never copies and never fails.
    pub fn read(&self) -> (r: &T)
        ensures
            *r == self@,
    {
        &self.value
    }

    /// Exclusively replaces the logical value and hands back the previous
    /// one. Exclusivity is always achievable, so this never fails.
    pub fn replace(&mut self, value: T) -> (r: T)
        ensures
            final(self)@ == value,
            r == old(self)@,
    {
        let mut v = value;
        core::mem::swap(&mut self.value, &mut v);
        v
    }
}

impl<T: crate::pmap::MapValue> SharedCell<T> {
    /// A second owner of the same logical value: the copy's value has the
    /// same view, and a later mutation of either cell is never observed
    /// through the other.
    pub fn duplicate(&self) -> (r: Self)
        ensures
            (r@)@ == (self@)@,
    {
        SharedCell { value: self.value.val_clone() }
    }
}

} // verus!
