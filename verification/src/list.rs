//! An ordered persistent sequence, addressed by an arbitrary-precision index.

use vstd::prelude::*;
use vstd::pervasive::VecAdditionalExecFns;
use crate::shared_cell::SharedCell;
use crate::intval::Int;
use crate::pmap::MapValue;

verus! {

/// An ordered sequence of values with value semantics, built over a
/// [`SharedCell`]. An index must be below the length, or the access is a
/// contract violation.
pub struct List<T> {
    cell: SharedCell<Vec<T>>,
}

impl<T> View for List<T> {
    type V = Seq<T>;

    closed spec fn view(&self) -> Seq<T> {
        (self.cell@)@
    }
}

impl<T> List<T> {
    /// The empty list.
    pub fn new() -> (r: List<T>)
        ensures
            r@ == Seq::<T>::empty(),
    {
        List { cell: SharedCell::new(Vec::new()) }
    }

    /// Wraps an existing vector as a list.
    pub fn from_vec(v: Vec<T>) -> (r: List<T>)
        ensures
            r@ == v@,
    {
        List { cell: SharedCell::new(v) }
    }

    /// The number of elements.
    pub fn len(&self) -> (n: usize)
        ensures
            n == self@.len(),
    {
        self.cell.read().len()
    }

    /// Appends an element at the end.
    pub fn push(&mut self, value: T)
        ensures
            final(self)@ == old(self)@.push(value),
    {
        let mut v = self.cell.replace(Vec::new());
        v.push(value);
        let _ = self.cell.replace(v);
    }

    /// Borrows the element at a machine-sized index.
    pub fn get(&self, i: usize) -> (r: &T)
        requires
            i < self@.len(),
        ensures
            *r == self@[i as int],
    {
        let v = self.cell.read();
        &v[i]
    }

    /// Borrows the element at an arbitrary-precision index. The index must
    /// be non-negative and below the length.
    pub fn index_at(&self, i: &Int) -> (r: &T)
        requires
            0 <= i@ < self@.len(),
        ensures
            *r == self@[i@],
    {
        let v = self.cell.read();
        let n = v.len();
        proof {
            // the index is below a vector length, so it fits the machine word
            assert(i@ < n as int);
        }
        let idx = i.to_usize();
        &v[idx]
    }

    /// Borrows the backing vector.
    pub(crate) fn as_vec(&self) -> (r: &Vec<T>)
        ensures
            r@ == self@,
    {
        self.cell.read()
    }

    /// Replaces the element at an arbitrary-precision index. The index must
    /// be non-negative and below the length.
    pub fn set_at(&mut self, i: &Int, value: T)
        requires
            0 <= i@ < old(self)@.len(),
        ensures
            final(self)@ == old(self)@.update(i@, value),
    {
        let mut v = self.cell.replace(Vec::new());
        let n = v.len();
        proof {
            assert(i@ < n as int);
        }
        let idx = i.to_usize();
        v.set(idx, value);
        let _ = self.cell.replace(v);
    }

    /// Borrows the final element, if there is one.
    pub fn last(&self) -> (r: Option<&T>)
        ensures
            match r {
                Some(t) => self@.len() > 0 && *t == self@.last(),
                None => self@.len() == 0,
            },
    {
        let v = self.cell.read();
        if v.len() == 0 {
            None
        } else {
            Some(&v[v.len() - 1])
        }
    }

    /// Replaces the final element, reporting whether there was one. On an
    /// empty list the list is unchanged and `false` comes back.
    pub fn last_mut(&mut self, value: T) -> (r: bool)
        ensures
            old(self)@.len() == 0 ==> !r && final(self)@ == old(self)@,
            old(self)@.len() > 0 ==> r && final(self)@ == old(self)@.update(
                old(self)@.len() - 1,
                value,
            ),
    {
        let mut v = self.cell.replace(Vec::new());
        if v.len() == 0 {
            let _ = self.cell.replace(v);
            false
        } else {
            let n = v.len();
            v.set(n - 1, value);
            let _ = self.cell.replace(v);
            true
        }
    }
}

impl<T: MapValue> List<T> {
    /// A copy whose elements have the same views, in the same order.
    pub fn duplicate(&self) -> (r: Self)
        ensures
            r@.len() == self@.len(),
            forall|i: int| 0 <= i < r@.len() ==> (#[trigger] r@[i])@ == self@[i]@,
    {
        let v = self.cell.read();
        let mut out: Vec<T> = Vec::new();
        let mut i: usize = 0;
        while i < v.len()
            invariant
                i <= v@.len(),
                v@ == self@,
                out@.len() == i,
                forall|j: int| 0 <= j < i ==> (#[trigger] out@[j])@ == self@[j]@,
            decreases v@.len() - i,
        {
            out.push(v[i].val_clone());
            i += 1;
        }
        List { cell: SharedCell::new(out) }
    }
}

} // verus!
