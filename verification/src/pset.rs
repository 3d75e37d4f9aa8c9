//! A persistent set with value semantics, sharing the map's machinery.

use vstd::prelude::*;
use crate::pmap::{MapKey, MapValue, PersistentMap};
use crate::list::List;

verus! {

/// A set of values, with membership semantics analogous to the map's keys.
/// Its view is the mathematical set of element views.
pub struct PersistentSet<T> {
    map: PersistentMap<T, T>,
}

impl<T: MapKey + MapValue> PersistentSet<T> {
    /// Well-formedness, established by the constructor and preserved by
    /// every operation.
    pub closed spec fn wf(self) -> bool {
        self.map.wf()
    }
}

impl<T: MapKey + MapValue> View for PersistentSet<T> {
    type V = Set<<T as View>::V>;

    closed spec fn view(&self) -> Set<<T as View>::V> {
        self.map@.dom()
    }
}

impl<T: MapKey + MapValue> PersistentSet<T> {
    /// The empty set.
    pub fn new() -> (r: Self)
        ensures
            r.wf(),
            r@ == Set::<<T as View>::V>::empty(),
    {
        let r = PersistentSet { map: PersistentMap::new() };
        proof {
            assert(r@ =~= Set::<<T as View>::V>::empty());
        }
        r
    }

    /// Whether a value is a member.
    pub fn contains(&self, t: &T) -> (b: bool)
        requires
            self.wf(),
        ensures
            b == self@.contains(t@),
    {
        self.map.contains_key(t)
    }

    /// Inserts a value, reporting whether it was new.
    pub fn insert(&mut self, t: T) -> (b: bool)
        requires
            old(self).wf(),
        ensures
            final(self).wf(),
            final(self)@ == old(self)@.insert(t@),
            b == !old(self)@.contains(t@),
    {
        let key = t.key_clone();
        let prior = self.map.insert(key, t);
        proof {
            assert(self@ =~= old(self)@.insert(t@));
        }
        match prior {
            Some(_) => false,
            None => true,
        }
    }

    /// Removes a value, reporting whether it was present.
    pub fn remove(&mut self, t: &T) -> (b: bool)
        requires
            old(self).wf(),
        ensures
            final(self).wf(),
            final(self)@ == old(self)@.remove(t@),
            b == old(self)@.contains(t@),
    {
        let prior = self.map.remove(t);
        proof {
            assert(self@ =~= old(self)@.remove(t@));
        }
        match prior {
            Some(_) => true,
            None => false,
        }
    }

    /// A copy with the same members.
    pub fn duplicate(&self) -> (r: Self)
        requires
            self.wf(),
        ensures
            r.wf(),
            r@ == self@,
    {
        let r = PersistentSet { map: self.map.duplicate() };
        proof {
            assert(r@ =~= self@);
        }
        r
    }

    /// All current members, copied eagerly as a snapshot whose length is
    /// the set's size at call time.
    pub fn elements(&self) -> (r: List<T>)
        requires
            self.wf(),
        ensures
            r@.len() == self@.len(),
            forall|i: int| 0 <= i < r@.len() ==> self@.contains((#[trigger] r@[i])@),
            forall|tt: <T as View>::V|
                self@.contains(tt) ==> exists|i: int| 0 <= i < r@.len() && (#[trigger] r@[i])@
                    == tt,
    {
        self.map.keys()
    }
}

} // verus!
