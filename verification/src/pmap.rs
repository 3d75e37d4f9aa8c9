//! A persistent mapping with value semantics, built over a [`SharedCell`].

use vstd::prelude::*;
use vstd::seq_lib::*;
use vstd::pervasive::unreached;
use vstd::pervasive::VecAdditionalExecFns;
use crate::shared_cell::SharedCell;
use crate::list::List;
use crate::intval::Int;

verus! {

/// A key type for the persistent containers: equality and copying follow
/// the view.
pub trait MapKey: View + Sized {
    /// Decides equality of the views.
    fn key_eq(&self, other: &Self) -> (b: bool)
        ensures
            b == (self@ == other@),
    ;

    /// A copy with the same view.
    fn key_clone(&self) -> (c: Self)
        ensures
            c@ == self@,
    ;
}

/// A value type for the persistent containers: copying follows the view.
pub trait MapValue: View + Sized {
    /// A copy with the same view.
    fn val_clone(&self) -> (c: Self)
        ensures
            c@ == self@,
    ;
}

impl MapKey for u64 {
    fn key_eq(&self, other: &Self) -> bool {
        *self == *other
    }

    fn key_clone(&self) -> Self {
        *self
    }
}

impl MapValue for u64 {
    fn val_clone(&self) -> Self {
        *self
    }
}

impl MapKey for u8 {
    fn key_eq(&self, other: &Self) -> bool {
        *self == *other
    }

    fn key_clone(&self) -> Self {
        *self
    }
}

impl MapValue for u8 {
    fn val_clone(&self) -> Self {
        *self
    }
}

impl MapKey for String {
    fn key_eq(&self, other: &Self) -> bool {
        self.eq(other)
    }

    fn key_clone(&self) -> Self {
        self.clone()
    }
}

impl MapValue for String {
    fn val_clone(&self) -> Self {
        self.clone()
    }
}

impl MapKey for Int {
    fn key_eq(&self, other: &Self) -> bool {
        self == other
    }

    fn key_clone(&self) -> Self {
        self.duplicate()
    }
}

impl MapValue for Int {
    fn val_clone(&self) -> Self {
        self.duplicate()
    }
}

/// A mapping with unique keys and value semantics. Its view is the
/// mathematical map from key views to value views; the order of entries is
/// not semantically significant and is never exposed.
pub struct PersistentMap<K, V> {
    cell: SharedCell<Vec<(K, V)>>,
}

impl<K: MapKey, V: MapValue> PersistentMap<K, V> {
    spec fn entries(self) -> Seq<(K, V)> {
        (self.cell@)@
    }

    spec fn key_views(self) -> Seq<<K as View>::V> {
        Seq::new(self.entries().len(), |i: int| self.entries()[i].0@)
    }

    /// Well-formedness: the keys are unique. Constructors establish it and
    /// every operation preserves it.
    pub closed spec fn wf(self) -> bool {
        self.key_views().no_duplicates()
    }

    /// The keys in the map's internal order — the order the snapshot
    /// operations follow. The order itself is not semantically significant
    /// and stays unexposed; what matters is that [`Self::keys`] and
    /// [`Self::values`] read the same order.
    pub closed spec fn key_seq(self) -> Seq<<K as View>::V> {
        self.key_views()
    }
}

impl<K: MapKey, V: MapValue> View for PersistentMap<K, V> {
    type V = Map<<K as View>::V, <V as View>::V>;

    closed spec fn view(&self) -> Map<<K as View>::V, <V as View>::V> {
        Map::new(
            |k: <K as View>::V| self.key_views().contains(k),
            |k: <K as View>::V|
                self.entries()[choose|i: int|
                    0 <= i < self.key_views().len() && self.key_views()[i] == k].1@,
        )
    }
}

impl<K: MapKey, V: MapValue> PersistentMap<K, V> {
    /// The entry at index `i` is the binding the view records for its key.
    proof fn lemma_value_at(self, i: int)
        requires
            self.wf(),
            0 <= i < self.entries().len(),
        ensures
            self@.contains_key(self.key_views()[i]),
            self@[self.key_views()[i]] == self.entries()[i].1@,
    {
        let k = self.key_views()[i];
        assert(self.key_views().contains(k));
        let j = choose|j: int| 0 <= j < self.key_views().len() && self.key_views()[j] == k;
        assert(j == i);
    }

    /// The empty map.
    pub fn new() -> (r: Self)
        ensures
            r.wf(),
            r@ == Map::<<K as View>::V, <V as View>::V>::empty(),
    {
        let r = PersistentMap { cell: SharedCell::new(Vec::new()) };
        proof {
            assert(r@ =~= Map::<<K as View>::V, <V as View>::V>::empty());
        }
        r
    }

    /// Looks a key up, handing back a copy of the bound value if there is
    /// one.
    pub fn get(&self, k: &K) -> (r: Option<V>)
        requires
            self.wf(),
        ensures
            match r {
                Some(v) => self@.contains_key(k@) && v@ == self@[k@],
                None => !self@.contains_key(k@),
            },
    {
        let entries = self.cell.read();
        let mut i: usize = 0;
        while i < entries.len()
            invariant
                i <= entries@.len(),
                entries@ == self.entries(),
                self.wf(),
                forall|j: int| 0 <= j < i ==> self.key_views()[j] != k@,
            decreases entries@.len() - i,
        {
            let e = &entries[i];
            if e.0.key_eq(k) {
                let v = e.1.val_clone();
                proof {
                    assert(self.key_views()[i as int] == k@);
                    self.lemma_value_at(i as int);
                }
                return Some(v);
            }
            i += 1;
        }
        proof {
            assert(!self.key_views().contains(k@));
        }
        None
    }

    /// Whether a key is present.
    pub fn contains_key(&self, k: &K) -> (b: bool)
        requires
            self.wf(),
        ensures
            b == self@.contains_key(k@),
    {
        let r = self.get(k);
        match r {
            Some(_) => true,
            None => false,
        }
    }

    /// Looks a key known to be present up. Absence is a contract violation,
    /// not a recoverable error: callers use this only when absence is
    /// impossible by construction.
    pub fn index_at(&self, k: &K) -> (r: V)
        requires
            self.wf(),
            self@.contains_key(k@),
        ensures
            r@ == self@[k@],
    {
        let r = self.get(k);
        match r {
            Some(v) => v,
            None => unreached(),
        }
    }

    /// Inserts or overwrites a binding, reporting the previously bound
    /// value, if any.
    pub fn insert(&mut self, k: K, v: V) -> (r: Option<V>)
        requires
            old(self).wf(),
        ensures
            final(self).wf(),
            final(self)@ == old(self)@.insert(k@, v@),
            match r {
                Some(ov) => old(self)@.contains_key(k@) && ov@ == old(self)@[k@],
                None => !old(self)@.contains_key(k@),
            },
    {
        let ghost prior = *self;
        let entries = self.cell.read();
        let mut found: Option<usize> = None;
        let mut i: usize = 0;
        while i < entries.len()
            invariant
                i <= entries@.len(),
                entries@ == prior.entries(),
                match found {
                    Some(fi) => fi < i && prior.key_views()[fi as int] == k@,
                    None => forall|j: int| 0 <= j < i ==> prior.key_views()[j] != k@,
                },
            decreases entries@.len() - i,
        {
            match found {
                Some(_) => {
                },
                None => {
                    let e = &entries[i];
                    if e.0.key_eq(&k) {
                        found = Some(i);
                    }
                },
            }
            i += 1;
        }
        let mut ne: Vec<(K, V)> = clone_entries(entries);
        match found {
            Some(fi) => {
                let old_v = entries[fi].1.val_clone();
                proof {
                    prior.lemma_value_at(fi as int);
                }
                ne.set(fi, (k, v));
                let _ = self.cell.replace(ne);
                proof {
                    assert(self.key_views() =~= prior.key_views());
                    assert forall|kk: <K as View>::V| self@.contains_key(kk) implies self@[kk]
                        == prior@.insert(k@, v@)[kk] by {
                        let w = choose|w: int|
                            0 <= w < self.key_views().len() && self.key_views()[w] == kk;
                        self.lemma_value_at(w);
                        if kk == k@ {
                            assert(w == fi);
                        } else {
                            prior.lemma_value_at(w);
                        }
                    }
                    assert(self@ =~= prior@.insert(k@, v@));
                }
                Some(old_v)
            },
            None => {
                ne.push((k, v));
                let _ = self.cell.replace(ne);
                proof {
                    assert(self.key_views() =~= prior.key_views().push(k@));
                    assert(!prior.key_views().contains(k@));
                    assert forall|a: int, b: int|
                        0 <= a < b < self.key_views().len() implies self.key_views()[a]
                        != self.key_views()[b] by {
                        if b < prior.key_views().len() {
                            assert(prior.key_views()[a] != prior.key_views()[b]);
                        } else {
                            assert(self.key_views()[b] == k@);
                            assert(prior.key_views().contains(prior.key_views()[a]));
                        }
                    }
                    assert forall|kk: <K as View>::V| self@.contains_key(kk) implies self@[kk]
                        == prior@.insert(k@, v@)[kk] by {
                        let w = choose|w: int|
                            0 <= w < self.key_views().len() && self.key_views()[w] == kk;
                        self.lemma_value_at(w);
                        if kk != k@ {
                            assert(w < prior.key_views().len()) by {
                                if w == prior.key_views().len() {
                                    assert(self.key_views()[w] == k@);
                                }
                            }
                            assert(self.key_views()[w] == prior.key_views()[w]);
                            assert(self.entries()[w].1@ == prior.entries()[w].1@);
                            prior.lemma_value_at(w);
                        }
                    }
                    assert forall|kk: <K as View>::V| prior@.insert(k@, v@).contains_key(
                        kk,
                    ) implies #[trigger] self@.contains_key(kk) by {
                        if kk != k@ {
                            let w = choose|w: int|
                                0 <= w < prior.key_views().len() && prior.key_views()[w] == kk;
                            assert(self.key_views()[w] == kk);
                            assert(self.key_views().contains(kk));
                        } else {
                            assert(self.key_views()[prior.key_views().len() as int] == k@);
                            assert(self.key_views().contains(k@));
                        }
                    }
                    assert forall|kk: <K as View>::V| #[trigger] self@.contains_key(kk) implies
                        prior@.insert(k@, v@).contains_key(kk) by {
                        let w = choose|w: int|
                            0 <= w < self.key_views().len() && self.key_views()[w] == kk;
                        if kk != k@ {
                            assert(w < prior.key_views().len()) by {
                                if w == prior.key_views().len() {
                                    assert(self.key_views()[w] == k@);
                                }
                            }
                            assert(prior.key_views()[w] == kk);
                            assert(prior.key_views().contains(kk));
                        }
                    }
                    assert(self@ =~= prior@.insert(k@, v@));
                }
                None
            },
        }
    }

    /// Inserts only when the key is absent. On a conflict the map is left
    /// unchanged and the conflict is reported; this never overwrites.
    pub fn try_insert(&mut self, k: K, v: V) -> (r: Result<(), ()>)
        requires
            old(self).wf(),
        ensures
            final(self).wf(),
            old(self)@.contains_key(k@) ==> r is Err && final(self)@ == old(self)@,
            !old(self)@.contains_key(k@) ==> r is Ok && final(self)@ == old(self)@.insert(k@, v@),
    {
        if self.contains_key(&k) {
            return Err(());
        }
        let _ = self.insert(k, v);
        Ok(())
    }

    /// Removes a binding, reporting the previously bound value, if any.
    #[verifier::rlimit(100)]
    pub fn remove(&mut self, k: &K) -> (r: Option<V>)
        requires
            old(self).wf(),
        ensures
            final(self).wf(),
            final(self)@ == old(self)@.remove(k@),
            match r {
                Some(ov) => old(self)@.contains_key(k@) && ov@ == old(self)@[k@],
                None => !old(self)@.contains_key(k@),
            },
    {
        let ghost prior = *self;
        let ghost pk = prior.key_views();
        let entries = self.cell.read();
        let mut ne: Vec<(K, V)> = Vec::new();
        let mut old_v: Option<V> = None;
        let mut i: usize = 0;
        while i < entries.len()
            invariant
                i <= entries@.len(),
                entries@ == prior.entries(),
                prior.wf(),
                pk == prior.key_views(),
                forall|j: int| 0 <= j < ne@.len() ==> (#[trigger] ne@[j]).0@ != k@,
                forall|j: int|
                    0 <= j < ne@.len() ==> exists|w: int|
                        0 <= w < i && pk[w] == (#[trigger] ne@[j]).0@ && prior.entries()[w].1@
                            == ne@[j].1@,
                forall|w: int|
                    0 <= w < i && pk[w] != k@ ==> exists|j: int|
                        0 <= j < ne@.len() && (#[trigger] ne@[j]).0@ == pk[w],
                Seq::new(ne@.len(), |j: int| ne@[j].0@).no_duplicates(),
                match old_v {
                    Some(ov) => exists|w: int|
                        0 <= w < i && pk[w] == k@ && prior.entries()[w].1@ == ov@,
                    None => forall|j: int| 0 <= j < i ==> pk[j] != k@,
                },
            decreases entries@.len() - i,
        {
            let ghost pre = ne@;
            let e = &entries[i];
            if e.0.key_eq(k) {
                old_v = Some(e.1.val_clone());
                proof {
                    assert(pk[i as int] == k@);
                }
            } else {
                ne.push((e.0.key_clone(), e.1.val_clone()));
                proof {
                    assert(pk[i as int] == entries@[i as int].0@);
                    assert forall|j: int| 0 <= j < ne@.len() implies exists|w: int|
                        0 <= w < i + 1 && pk[w] == (#[trigger] ne@[j]).0@ && prior.entries()[w].1@
                            == ne@[j].1@ by {
                        if j < pre.len() {
                            assert(ne@[j] == pre[j]);
                            let w = choose|w: int|
                                0 <= w < i && pk[w] == pre[j].0@ && prior.entries()[w].1@
                                    == pre[j].1@;
                            assert(0 <= w < i + 1 && pk[w] == ne@[j].0@ && prior.entries()[w].1@
                                == ne@[j].1@);
                        } else {
                            assert(pk[i as int] == ne@[j].0@ && prior.entries()[i as int].1@
                                == ne@[j].1@);
                        }
                    }
                    assert forall|w: int| 0 <= w < i + 1 && pk[w] != k@ implies exists|j: int|
                        0 <= j < ne@.len() && (#[trigger] ne@[j]).0@ == pk[w] by {
                        if w < i {
                            let j = choose|j: int| 0 <= j < pre.len() && (pre[j]).0@ == pk[w];
                            assert(0 <= j < ne@.len() && (ne@[j]).0@ == pk[w]);
                        } else {
                            assert(0 <= pre.len() < ne@.len() && (ne@[pre.len() as int]).0@
                                == pk[i as int]);
                        }
                    }
                    let nk = Seq::new(ne@.len(), |j: int| ne@[j].0@);
                    let ok = Seq::new(pre.len(), |j: int| pre[j].0@);
                    assert forall|a: int, b: int| 0 <= a < b < nk.len() implies nk[a] != nk[b] by {
                        if b < pre.len() {
                            assert(ok[a] != ok[b]);
                        } else {
                            assert(nk[b] == pk[i as int]);
                            let w = choose|w: int|
                                0 <= w < i && pk[w] == pre[a].0@ && prior.entries()[w].1@
                                    == pre[a].1@;
                            if nk[a] == nk[b] {
                                assert(pk[w] == pk[i as int] && w != i);
                            }
                        }
                    }
                }
            }
            i += 1;
        }
        let ghost nk = Seq::new(ne@.len(), |j: int| ne@[j].0@);
        let _ = self.cell.replace(ne);
        proof {
            assert(self.key_views() =~= nk);
            assert forall|kk: <K as View>::V| #[trigger] self@.contains_key(kk) implies
                prior@.remove(k@).contains_key(kk) by {
                let j = choose|j: int| 0 <= j < nk.len() && nk[j] == kk;
                assert(self.entries()[j].0@ == kk);
                assert(kk != k@);
                let w = choose|w: int|
                    0 <= w < prior.entries().len() && pk[w] == self.entries()[j].0@
                        && prior.entries()[w].1@ == self.entries()[j].1@;
                assert(pk[w] == kk);
                assert(pk.contains(kk));
            }
            assert forall|kk: <K as View>::V| prior@.remove(k@).contains_key(kk) implies
                #[trigger] self@.contains_key(kk) by {
                assert(pk.contains(kk) && kk != k@);
                let w = choose|w: int| 0 <= w < pk.len() && pk[w] == kk;
                let j = choose|j: int| 0 <= j < ne@.len() && ne@[j].0@ == pk[w];
                assert(nk[j] == kk);
                assert(self.key_views().contains(kk));
            }
            assert forall|kk: <K as View>::V| self@.contains_key(kk) implies self@[kk]
                == prior@.remove(k@)[kk] by {
                let j = choose|j: int|
                    0 <= j < self.key_views().len() && self.key_views()[j] == kk;
                self.lemma_value_at(j);
                let w = choose|w: int|
                    0 <= w < prior.entries().len() && pk[w] == self.entries()[j].0@
                        && prior.entries()[w].1@ == self.entries()[j].1@;
                prior.lemma_value_at(w);
                assert(kk != k@);
            }
            assert(self@ =~= prior@.remove(k@));
            if old_v is Some {
                let w = choose|w: int|
                    0 <= w < prior.entries().len() && pk[w] == k@ && prior.entries()[w].1@
                        == old_v->Some_0@;
                prior.lemma_value_at(w);
            } else {
                assert(!pk.contains(k@));
            }
        }
        old_v
    }

    /// All current keys, copied eagerly as a snapshot: later mutation of the
    /// map is never observed through the result, and the snapshot's length
    /// equals the map's entry count at call time.
    pub fn keys(&self) -> (r: List<K>)
        requires
            self.wf(),
        ensures
            r@.len() == self@.dom().len(),
            Seq::new(r@.len(), |i: int| r@[i]@) == self.key_seq(),
            forall|i: int| 0 <= i < r@.len() ==> self@.dom().contains(#[trigger] r@[i]@),
            forall|kk: <K as View>::V|
                self@.dom().contains(kk) ==> exists|i: int| 0 <= i < r@.len() && (#[trigger] r@[i])@
                    == kk,
            Seq::new(r@.len(), |i: int| r@[i]@).no_duplicates(),
    {
        let entries = self.cell.read();
        let mut out: List<K> = List::new();
        let mut i: usize = 0;
        while i < entries.len()
            invariant
                i <= entries@.len(),
                entries@ == self.entries(),
                self.wf(),
                out@.len() == i,
                forall|j: int| 0 <= j < i ==> (#[trigger] out@[j])@ == self.key_views()[j],
            decreases entries@.len() - i,
        {
            let e = &entries[i];
            out.push(e.0.key_clone());
            i += 1;
        }
        proof {
            assert(Seq::new(out@.len(), |i: int| out@[i]@) =~= self.key_views());
            self.lemma_dom_len();
            assert forall|i: int| 0 <= i < out@.len() implies self@.dom().contains(
                #[trigger] out@[i]@,
            ) by {
                assert(self.key_views()[i] == out@[i]@);
                assert(self.key_views().contains(out@[i]@));
            }
            assert forall|kk: <K as View>::V| self@.dom().contains(kk) implies exists|i: int|
                0 <= i < out@.len() && (#[trigger] out@[i])@ == kk by {
                assert(self.key_views().contains(kk));
                let i = choose|i: int|
                    0 <= i < self.key_views().len() && self.key_views()[i] == kk;
                assert(0 <= i < out@.len() && (out@[i])@ == kk);
            }
        }
        out
    }

    /// All current values, copied eagerly as a snapshot in the same order
    /// as [`Self::keys`]: the element at `i` is the value bound to the key
    /// at `i` of the key snapshot, so the two snapshots together are
    /// exactly the map's bindings at call time.
    pub fn values(&self) -> (r: List<V>)
        requires
            self.wf(),
        ensures
            r@.len() == self@.dom().len(),
            r@.len() == self.key_seq().len(),
            forall|i: int| 0 <= i < r@.len() ==> (#[trigger] r@[i])@ == self@[self.key_seq()[i]],
    {
        let entries = self.cell.read();
        let mut out: List<V> = List::new();
        let mut i: usize = 0;
        while i < entries.len()
            invariant
                i <= entries@.len(),
                entries@ == self.entries(),
                self.wf(),
                out@.len() == i,
                forall|j: int| 0 <= j < i ==> (#[trigger] out@[j])@ == self.entries()[j].1@,
            decreases entries@.len() - i,
        {
            let e = &entries[i];
            out.push(e.1.val_clone());
            i += 1;
        }
        proof {
            self.lemma_dom_len();
            assert forall|i: int| 0 <= i < out@.len() implies (#[trigger] out@[i])@
                == self@[self.key_seq()[i]] by {
                self.lemma_value_at(i);
            }
        }
        out
    }

    /// A copy with the same bindings, and the same snapshot order.
    pub fn duplicate(&self) -> (r: Self)
        requires
            self.wf(),
        ensures
            r.wf(),
            r@ == self@,
            r.key_seq() == self.key_seq(),
    {
        let entries = self.cell.read();
        let ne = clone_entries(entries);
        let r = PersistentMap { cell: SharedCell::new(ne) };
        proof {
            assert(r.key_views() =~= self.key_views());
            assert forall|kk: <K as View>::V| #[trigger] r@.contains_key(kk) implies r@[kk]
                == self@[kk] by {
                let j = choose|j: int| 0 <= j < r.key_views().len() && r.key_views()[j] == kk;
                r.lemma_value_at(j);
                assert(self.key_views()[j] == kk);
                self.lemma_value_at(j);
            }
            assert(r@ =~= self@);
        }
        r
    }

    /// The domain of the view is exactly the set of key views, so its size
    /// is the entry count.
    proof fn lemma_dom_len(self)
        requires
            self.wf(),
        ensures
            self@.dom().len() == self.entries().len(),
    {
        assert(self@.dom() =~= self.key_views().to_set());
        self.key_views().unique_seq_to_set();
    }
}

/// Copies a vector of entries, preserving every key and value view.
fn clone_entries<K: MapKey, V: MapValue>(entries: &Vec<(K, V)>) -> (out: Vec<(K, V)>)
    ensures
        out@.len() == entries@.len(),
        forall|j: int|
            0 <= j < out@.len() ==> (#[trigger] out@[j]).0@ == entries@[j].0@ && out@[j].1@
                == entries@[j].1@,
{
    let mut out: Vec<(K, V)> = Vec::new();
    let mut i: usize = 0;
    while i < entries.len()
        invariant
            i <= entries@.len(),
            out@.len() == i,
            forall|j: int|
                0 <= j < i ==> (#[trigger] out@[j]).0@ == entries@[j].0@ && out@[j].1@
                    == entries@[j].1@,
        decreases entries@.len() - i,
    {
        let e = &entries[i];
        out.push((e.0.key_clone(), e.1.val_clone()));
        i += 1;
    }
    out
}

} // verus!
