//! The map facade: the tree engine storing key-value pairs whose comparator
//! only inspects the key, so that an equal key replaces the stored pair.

use vstd::prelude::*;

use crate::Comparator;
use crate::flip_ordering;
use crate::olist::lemma_found_congruent;
use crate::olist::lemma_insert_preserves;
use crate::olist::lemma_removed_preserves;
use crate::olist::lemma_removed_shape;
use crate::olist::seq_found;
use crate::olist::seq_insert;
use crate::olist::seq_removed;
use crate::rbtreecmp::RBTreeWithCmp;

verus! {

/// A stored map entry: a key together with its value. A pair built only to
/// probe the tree carries no value.
pub struct KeyedPair<K, V> {
    pub key: K,
    pub val: Option<V>,
}

/// A probe: a pair carrying only a key, for lookups and removals.
pub open spec fn probe_of<K, V>(key: K) -> KeyedPair<K, V> {
    KeyedPair { key: key, val: None }
}

/// A stored entry: a key together with its value.
pub open spec fn entry_of<K, V>(key: K, val: V) -> KeyedPair<K, V> {
    KeyedPair { key: key, val: Some(val) }
}

impl<K, V> KeyedPair<K, V> {
    /// Takes the pair apart into its key and value.
    pub fn consume(self) -> (kv: (K, V))
        requires
            self.val is Some,
        ensures
            kv.0 == self.key,
            Some(kv.1) == self.val,
    {
        let KeyedPair { key, val } = self;
        match val {
            Some(v) => (key, v),
            None => {
                proof {
                    assert(false);
                }
                vstd::pervasive::unreached()
            },
        }
    }
}

/// Lifts a comparator on keys to one on key-value pairs that inspects the
/// key alone.
pub struct ComparatorWrapper<K, F: Comparator<K>> {
    /// The key comparator being lifted.
    pub cmp: F,
    /// Marks the key type the lifted comparator orders.
    pub marker: core::marker::PhantomData<K>,
}

impl<K, F: Comparator<K>> ComparatorWrapper<K, F> {
    /// Wraps a key comparator.
    pub fn new(cmp: F) -> (w: ComparatorWrapper<K, F>)
        ensures
            w.cmp == cmp,
    {
        ComparatorWrapper { cmp, marker: core::marker::PhantomData }
    }
}

impl<K, V, F: Comparator<K>> Comparator<KeyedPair<K, V>> for ComparatorWrapper<K, F> {
    open spec fn spec_cmp(&self, a: KeyedPair<K, V>, b: KeyedPair<K, V>) -> core::cmp::Ordering {
        self.cmp.spec_cmp(a.key, b.key)
    }

    proof fn lemma_total_preorder(&self) {
        self.cmp.lemma_total_preorder();
        assert forall|a: KeyedPair<K, V>, b: KeyedPair<K, V>|
            #![trigger self.spec_cmp(a, b)]
            self.spec_cmp(a, b) == flip_ordering(self.spec_cmp(b, a)) by {
            assert(self.cmp.spec_cmp(a.key, b.key) == flip_ordering(
                self.cmp.spec_cmp(b.key, a.key),
            ));
        }
        assert forall|a: KeyedPair<K, V>, b: KeyedPair<K, V>, x: KeyedPair<K, V>|
            #![trigger self.spec_cmp(a, b), self.spec_cmp(b, x)]
            (self.spec_cmp(a, b) == core::cmp::Ordering::Less && self.spec_cmp(b, x)
                == core::cmp::Ordering::Less ==> self.spec_cmp(a, x)
                == core::cmp::Ordering::Less) by {
            if self.cmp.spec_cmp(a.key, b.key) == core::cmp::Ordering::Less && self.cmp.spec_cmp(
                b.key,
                x.key,
            ) == core::cmp::Ordering::Less {
                assert(self.cmp.spec_cmp(a.key, x.key) == core::cmp::Ordering::Less);
            }
        }
        assert forall|a: KeyedPair<K, V>, b: KeyedPair<K, V>, x: KeyedPair<K, V>|
            #![trigger self.spec_cmp(a, b), self.spec_cmp(b, x)]
            (self.spec_cmp(a, b) == core::cmp::Ordering::Equal ==> self.spec_cmp(a, x)
                == self.spec_cmp(b, x)) by {
            if self.cmp.spec_cmp(a.key, b.key) == core::cmp::Ordering::Equal {
                assert(self.cmp.spec_cmp(a.key, x.key) == self.cmp.spec_cmp(b.key, x.key));
            }
        }
        assert forall|a: KeyedPair<K, V>, b: KeyedPair<K, V>, x: KeyedPair<K, V>|
            #![trigger self.spec_cmp(a, b), self.spec_cmp(x, a)]
            (self.spec_cmp(a, b) == core::cmp::Ordering::Equal ==> self.spec_cmp(x, a)
                == self.spec_cmp(x, b)) by {
            if self.cmp.spec_cmp(a.key, b.key) == core::cmp::Ordering::Equal {
                assert(self.cmp.spec_cmp(x.key, a.key) == self.cmp.spec_cmp(x.key, b.key));
            }
        }
    }

    fn cmp(&self, a: &KeyedPair<K, V>, b: &KeyedPair<K, V>) -> (r: core::cmp::Ordering) {
        self.cmp.cmp(&a.key, &b.key)
    }
}

/// A map from keys to values, stored as a tree of pairs compared by key.
pub struct RBMapWithCmp<K, V, F: Comparator<K>> {
    map: RBTreeWithCmp<KeyedPair<K, V>, ComparatorWrapper<K, F>>,
}

impl<K, V, F: Comparator<K>> RBMapWithCmp<K, V, F> {
    /// The underlying tree of pairs.
    pub closed spec fn spec_tree(self) -> RBTreeWithCmp<KeyedPair<K, V>, ComparatorWrapper<K, F>> {
        self.map
    }

    /// The stored pairs, ascending by key.
    pub open spec fn pairs(self) -> Seq<KeyedPair<K, V>> {
        self.spec_tree()@
    }

    /// The lifted comparator the tree orders by.
    pub open spec fn spec_wcmp(self) -> ComparatorWrapper<K, F> {
        self.spec_tree().spec_cmp_fn()
    }

    /// The stored pair whose key compares equal to `key`, if any.
    pub open spec fn spec_found(self, key: K) -> Option<KeyedPair<K, V>> {
        seq_found(self.spec_wcmp(), self.pairs(), probe_of(key))
    }

    /// The underlying tree is well-formed and every stored pair carries a
    /// value.
    pub open spec fn wf(self) -> bool {
        &&& self.spec_tree().wf()
        &&& forall|i: int| 0 <= i < self.pairs().len() ==> (#[trigger] self.pairs()[i]).val is Some
    }

    /// Creates an empty map around the given key comparator.
    pub fn new(cmp: F) -> (m: RBMapWithCmp<K, V, F>)
        ensures
            m.wf(),
            m.pairs() == Seq::<KeyedPair<K, V>>::empty(),
            m.spec_wcmp().cmp == cmp,
    {
        RBMapWithCmp { map: RBTreeWithCmp::new(ComparatorWrapper::new(cmp)) }
    }

    /// Whether the map holds an entry for `key`.
    pub fn contains_key(&self, key: K) -> (b: bool)
        requires
            self.wf(),
        ensures
            b == (self.spec_found(key) is Some),
    {
        proof {
            lemma_removed_shape(self.spec_wcmp(), self.pairs(), probe_of::<K, V>(key));
        }
        match self.map.get(&KeyedPair { key, val: None }) {
            None => false,
            Some(p) => p.val.is_some(),
        }
    }

    /// The value stored under `key`, if any.
    pub fn get(&self, key: K) -> (res: Option<&V>)
        requires
            self.wf(),
        ensures
            match res {
                Some(v) => self.spec_found(key) matches Some(q) && q.val == Some(*v),
                None => self.spec_found(key) is None,
            },
    {
        proof {
            lemma_removed_shape(self.spec_wcmp(), self.pairs(), probe_of::<K, V>(key));
        }
        match self.map.get(&KeyedPair { key, val: None }) {
            None => None,
            Some(p) => match &p.val {
                Some(v) => Some(v),
                None => {
                    proof {
                        assert(false);
                    }
                    vstd::pervasive::unreached()
                },
            },
        }
    }

    /// The stored key-value pair for `key`, if any.
    pub fn get_pair(&self, key: K) -> (res: Option<(&K, &V)>)
        requires
            self.wf(),
        ensures
            match res {
                Some(kv) => self.spec_found(key) matches Some(q) && q.key == *kv.0 && q.val
                    == Some(*kv.1),
                None => self.spec_found(key) is None,
            },
    {
        proof {
            lemma_removed_shape(self.spec_wcmp(), self.pairs(), probe_of::<K, V>(key));
        }
        match self.map.get(&KeyedPair { key, val: None }) {
            None => None,
            Some(p) => match &p.val {
                Some(v) => Some((&p.key, v)),
                None => {
                    proof {
                        assert(false);
                    }
                    vstd::pervasive::unreached()
                },
            },
        }
    }

    /// Associates `val` with `key`, handing back the previously stored pair
    /// whose key compared equal, if there was one.
    pub fn insert(&mut self, key: K, val: V) -> (prev: Option<(K, V)>)
        requires
            old(self).wf(),
            old(self).pairs().len() < usize::MAX,
        ensures
            final(self).wf(),
            final(self).spec_wcmp() == old(self).spec_wcmp(),
            final(self).pairs() == seq_insert(
                old(self).spec_wcmp(),
                old(self).pairs(),
                entry_of(key, val),
            ),
            match prev {
                Some(kv) => old(self).spec_found(key) matches Some(q) && q.key == kv.0 && q.val
                    == Some(kv.1),
                None => old(self).spec_found(key) is None,
            },
            final(self).pairs().len() == old(self).pairs().len() + (if prev is Some {
                0int
            } else {
                1int
            }),
    {
        let ghost w = self.spec_wcmp();
        let ghost s0 = self.pairs();
        proof {
            assert forall|e: KeyedPair<K, V>| #[trigger] w.spec_cmp(entry_of(key, val), e)
                == w.spec_cmp(probe_of(key), e) by {
            }
            lemma_found_congruent(w, s0, entry_of::<K, V>(key, val), probe_of::<K, V>(key));
            lemma_removed_shape(w, s0, probe_of::<K, V>(key));
            lemma_insert_preserves(
                w,
                s0,
                entry_of::<K, V>(key, val),
                |e: KeyedPair<K, V>| e.val is Some,
            );
        }
        match self.map.replace(KeyedPair { key, val: Some(val) }) {
            Some(p) => Some(p.consume()),
            None => None,
        }
    }

    /// Removes the entry for `key` and hands back its value, if there was
    /// one; an absent key leaves the map exactly as it was.
    pub fn remove(&mut self, key: K) -> (removed: Option<V>)
        requires
            old(self).wf(),
        ensures
            final(self).wf(),
            final(self).spec_wcmp() == old(self).spec_wcmp(),
            final(self).pairs() == seq_removed(
                old(self).spec_wcmp(),
                old(self).pairs(),
                probe_of(key),
            ),
            match removed {
                Some(v) => old(self).spec_found(key) matches Some(q) && q.val == Some(v),
                None => old(self).spec_found(key) is None && *final(self) == *old(self),
            },
            final(self).pairs().len() == old(self).pairs().len() - (if removed is Some {
                1int
            } else {
                0int
            }),
    {
        let ghost w = self.spec_wcmp();
        let ghost s0 = self.pairs();
        proof {
            lemma_removed_shape(w, s0, probe_of::<K, V>(key));
            lemma_removed_preserves(w, s0, probe_of::<K, V>(key), |e: KeyedPair<K, V>| e.val is Some);
        }
        match self.map.take(&KeyedPair { key, val: None }) {
            Some(p) => Some(p.consume().1),
            None => None,
        }
    }

    /// The number of stored entries.
    pub fn len(&self) -> (n: usize)
        ensures
            n == self.spec_tree().spec_contained(),
            self.wf() ==> n == self.pairs().len(),
    {
        self.map.len()
    }

    /// Whether the map stores nothing.
    pub fn is_empty(&self) -> (e: bool)
        ensures
            e == (self.spec_tree().spec_contained() == 0),
            self.wf() ==> e == (self.pairs().len() == 0),
    {
        self.map.is_empty()
    }

    /// An eager ordered snapshot: references to every key-value pair, in
    /// ascending key order.
    #[verifier::loop_isolation(false)]
    pub fn ordered(&self) -> (out: Vec<(&K, &V)>)
        requires
            self.wf(),
        ensures
            out@.len() == self.pairs().len(),
            forall|i: int|
                0 <= i < out@.len() ==> *(#[trigger] out@[i]).0 == self.pairs()[i].key && Some(
                    *out@[i].1,
                ) == self.pairs()[i].val,
    {
        let inner = self.map.ordered();
        let mut out: Vec<(&K, &V)> = Vec::new();
        let mut idx: usize = 0;
        while idx < inner.len()
            invariant
                idx <= inner.len(),
                out@.len() == idx,
                forall|i: int|
                    0 <= i < out@.len() ==> *(#[trigger] out@[i]).0 == self.pairs()[i].key && Some(
                        *out@[i].1,
                    ) == self.pairs()[i].val,
            decreases inner.len() - idx,
        {
            let p = inner[idx];
            proof {
                assert(*inner@[idx as int] == self.pairs()[idx as int]);
            }
            match &p.val {
                Some(v) => out.push((&p.key, v)),
                None => {
                    proof {
                        assert(false);
                    }
                    vstd::pervasive::unreached()
                },
            }
            idx = idx + 1;
        }
        out
    }

    /// An in-order cursor over references to the stored pairs.
    pub fn iter(&self) -> (it: Iter<K, V>)
        requires
            self.wf(),
        ensures
            it.wf(),
            it.pending().len() == self.pairs().len(),
            forall|i: int|
                0 <= i < it.pending().len() ==> (#[trigger] it.pending()[i]).0
                    == self.pairs()[i].key && Some(it.pending()[i].1) == self.pairs()[i].val,
    {
        let ordered = self.ordered();
        let it = Iter { pos: 0, ordered };
        proof {
            assert(it.pending() =~= it.spec_items());
        }
        it
    }

    /// A consuming cursor that drains the map in ascending key order.
    pub fn into_iter(self) -> (it: IntoIter<K, V, F>)
        requires
            self.wf(),
        ensures
            it.wf(),
            it.spec_pairs() == self.pairs(),
    {
        IntoIter { tree: self.map }
    }
}

/// An eager in-order cursor over key-value references.
pub struct Iter<'a, K, V> {
    pos: usize,
    ordered: Vec<(&'a K, &'a V)>,
}

impl<'a, K, V> Iter<'a, K, V> {
    /// The snapshot pairs.
    pub closed spec fn spec_items(self) -> Seq<(K, V)> {
        self.ordered@.map_values(|p: (&K, &V)| (*p.0, *p.1))
    }

    /// How far the cursor has come.
    pub closed spec fn spec_pos(self) -> usize {
        self.pos
    }

    /// The pairs still to come, in order.
    pub open spec fn pending(self) -> Seq<(K, V)> {
        self.spec_items().skip(self.spec_pos() as int)
    }

    /// The cursor never passes the end of its snapshot.
    pub open spec fn wf(self) -> bool {
        self.spec_pos() <= self.spec_items().len()
    }

    /// The next pair in ascending key order, if one is left.
    pub fn next(&mut self) -> (res: Option<(&'a K, &'a V)>)
        requires
            old(self).wf(),
        ensures
            final(self).wf(),
            old(self).pending().len() == 0 ==> res is None && *final(self) == *old(self),
            old(self).pending().len() > 0 ==> match res {
                Some(kv) => (*kv.0, *kv.1) == old(self).pending()[0] && final(self).pending()
                    == old(self).pending().drop_first(),
                None => false,
            },
    {
        if self.pos < self.ordered.len() {
            let out = self.ordered[self.pos];
            self.pos = self.pos + 1;
            proof {
                assert(old(self).pending()[0] == old(self).spec_items()[old(self).spec_pos() as int]);
                assert(self.pending() =~= old(self).pending().drop_first());
            }
            Some(out)
        } else {
            None
        }
    }
}

/// A consuming cursor: repeatedly extracts the least-keyed pair of the tree
/// it owns.
pub struct IntoIter<K, V, F: Comparator<K>> {
    tree: RBTreeWithCmp<KeyedPair<K, V>, ComparatorWrapper<K, F>>,
}

impl<K, V, F: Comparator<K>> IntoIter<K, V, F> {
    /// The pairs still to come, ascending by key.
    pub closed spec fn spec_pairs(self) -> Seq<KeyedPair<K, V>> {
        self.tree@
    }

    /// The owned tree is well-formed and every pair carries a value.
    pub closed spec fn wf(self) -> bool {
        &&& self.tree.wf()
        &&& forall|i: int|
            0 <= i < self.spec_pairs().len() ==> (#[trigger] self.spec_pairs()[i]).val is Some
    }

    /// The next key-value pair in ascending key order, if one is left.
    pub fn next(&mut self) -> (res: Option<(K, V)>)
        requires
            old(self).wf(),
        ensures
            final(self).wf(),
            old(self).spec_pairs().len() == 0 ==> res is None,
            old(self).spec_pairs().len() > 0 ==> match res {
                Some(kv) => kv.0 == old(self).spec_pairs()[0].key && Some(kv.1) == old(
                    self,
                ).spec_pairs()[0].val && final(self).spec_pairs() == old(
                    self,
                ).spec_pairs().drop_first(),
                None => false,
            },
    {
        match self.tree.pop() {
            Some(p) => Some(p.consume()),
            None => None,
        }
    }

    /// How many pairs are still to come.
    pub fn len(&self) -> (n: usize)
        ensures
            self.wf() ==> n == self.spec_pairs().len(),
    {
        self.tree.len()
    }
}

} // verus!
