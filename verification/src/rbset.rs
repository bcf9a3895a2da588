//! The set facade: a direct, un-adorned use of the tree keyed by the
//! element itself.

use vstd::prelude::*;

use crate::Comparator;
use crate::node::Node;
use crate::olist::seq_found;
use crate::olist::seq_insert;
use crate::olist::seq_removed;
use crate::rbtreecmp::RBTreeWithCmp;

verus! {

/// A sorted set of values ordered by a caller-supplied comparator.
pub struct RBSet<K, F: Comparator<K>> {
    map: RBTreeWithCmp<K, F>,
}

impl<K, F: Comparator<K>> RBSet<K, F> {
    /// The underlying tree.
    pub closed spec fn spec_tree(self) -> RBTreeWithCmp<K, F> {
        self.map
    }

    /// The comparator this set was built with.
    pub open spec fn spec_cmp_fn(self) -> F {
        self.spec_tree().spec_cmp_fn()
    }

    /// Well-formedness of the underlying tree.
    pub open spec fn wf(self) -> bool {
        self.spec_tree().wf()
    }

    /// Creates an empty set around the given comparator.
    pub fn new(f: F) -> (s: RBSet<K, F>)
        ensures
            s.wf(),
            s@ == Seq::<K>::empty(),
            s.spec_cmp_fn() == f,
    {
        RBSet { map: RBTreeWithCmp::new(f) }
    }

    /// Inserts `key`, handing back the previously stored value that
    /// compared equal to it, if there was one.
    pub fn insert(&mut self, key: K) -> (prev: Option<K>)
        requires
            old(self).wf(),
            old(self)@.len() < usize::MAX,
        ensures
            final(self).wf(),
            final(self).spec_cmp_fn() == old(self).spec_cmp_fn(),
            final(self)@ == seq_insert(old(self).spec_cmp_fn(), old(self)@, key),
            prev == seq_found(old(self).spec_cmp_fn(), old(self)@, key),
            final(self)@.len() == old(self)@.len() + (if prev is Some {
                0int
            } else {
                1int
            }),
    {
        self.map.replace(key)
    }

    /// Removes and returns the stored value comparing equal to `key`; an
    /// absent value leaves the set exactly as it was.
    pub fn remove(&mut self, key: &K) -> (removed: Option<K>)
        requires
            old(self).wf(),
        ensures
            final(self).wf(),
            final(self).spec_cmp_fn() == old(self).spec_cmp_fn(),
            removed == seq_found(old(self).spec_cmp_fn(), old(self)@, *key),
            final(self)@ == seq_removed(old(self).spec_cmp_fn(), old(self)@, *key),
            removed is None ==> *final(self) == *old(self),
            final(self)@.len() == old(self)@.len() - (if removed is Some {
                1int
            } else {
                0int
            }),
    {
        self.map.take(key)
    }

    /// The number of stored values.
    pub fn len(&self) -> (n: usize)
        ensures
            n == self.spec_tree().spec_contained(),
            self.wf() ==> n == self@.len(),
    {
        self.map.len()
    }

    /// Whether the set stores nothing.
    pub fn is_empty(&self) -> (e: bool)
        ensures
            e == (self.spec_tree().spec_contained() == 0),
            self.wf() ==> e == (self@.len() == 0),
    {
        self.map.is_empty()
    }

    /// An eager ordered snapshot: references to every stored value, in
    /// ascending comparator order.
    pub fn ordered(&self) -> (out: Vec<&K>)
        ensures
            out@.len() == self@.len(),
            forall|i: int| 0 <= i < out@.len() ==> *out@[i] == self@[i],
    {
        self.map.ordered()
    }

    /// Extracts the least stored value; an empty set yields nothing.
    pub fn pop(&mut self) -> (min: Option<K>)
        requires
            old(self).wf(),
        ensures
            final(self).wf(),
            final(self).spec_cmp_fn() == old(self).spec_cmp_fn(),
            old(self)@.len() == 0 ==> min is None && *final(self) == *old(self),
            old(self)@.len() > 0 ==> min == Some(old(self)@[0]) && final(self)@ == old(self)@.drop_first(),
    {
        self.map.pop()
    }

    /// An in-order cursor over references to the stored values.
    pub fn iter(&self) -> (it: Iter<K>)
        requires
            self.wf(),
        ensures
            it.wf(),
            it.pending() == self@,
    {
        let ordered = self.ordered();
        let it = Iter { pos: 0, ordered };
        proof {
            assert(it.pending() =~= self@);
        }
        it
    }

    /// A consuming cursor that drains the set in ascending order.
    pub fn into_iter(self) -> (it: IntoIter<K, F>)
        requires
            self.wf(),
        ensures
            it.wf(),
            it.pending() == self@,
    {
        IntoIter { tree: self }
    }

    /// Read-only access to the root node, for structural inspection.
    pub fn root(&self) -> (r: &Node<K>)
        ensures
            *r == self.spec_tree().spec_root(),
    {
        self.map.root()
    }
}

impl<K, F: Comparator<K>> View for RBSet<K, F> {
    type V = Seq<K>;

    /// The set viewed as its ascending sequence of stored values.
    open spec fn view(&self) -> Seq<K> {
        self.spec_tree()@
    }
}

/// An eager in-order cursor: a snapshot of references walked front to back.
pub struct Iter<'a, K> {
    pos: usize,
    ordered: Vec<&'a K>,
}

impl<'a, K> Iter<'a, K> {
    /// The snapshot values.
    pub closed spec fn spec_items(self) -> Seq<K> {
        self.ordered@.map_values(|p: &K| *p)
    }

    /// How far the cursor has come.
    pub closed spec fn spec_pos(self) -> usize {
        self.pos
    }

    /// The values still to come, in order.
    pub open spec fn pending(self) -> Seq<K> {
        self.spec_items().skip(self.spec_pos() as int)
    }

    /// The cursor never passes the end of its snapshot.
    pub open spec fn wf(self) -> bool {
        self.spec_pos() <= self.spec_items().len()
    }

    /// The next value in ascending order, if one is left.
    pub fn next(&mut self) -> (res: Option<&'a K>)
        requires
            old(self).wf(),
        ensures
            final(self).wf(),
            old(self).pending().len() == 0 ==> res is None && *final(self) == *old(self),
            old(self).pending().len() > 0 ==> match res {
                Some(p) => *p == old(self).pending()[0] && final(self).pending() == old(self).pending().drop_first(),
                None => false,
            },
    {
        if self.pos < self.ordered.len() {
            let out = self.ordered[self.pos];
            self.pos = self.pos + 1;
            proof {
                assert(old(self).pending()[0] == old(self).spec_items()[old(self).spec_pos() as int]);
                assert(self.pending() =~= old(self).pending().drop_first());
            }
            Some(out)
        } else {
            None
        }
    }
}

/// A consuming cursor: repeatedly extracts the minimum of the set it owns.
pub struct IntoIter<K, F: Comparator<K>> {
    tree: RBSet<K, F>,
}

impl<K, F: Comparator<K>> IntoIter<K, F> {
    /// The set still to be drained.
    pub closed spec fn spec_set(self) -> RBSet<K, F> {
        self.tree
    }

    /// The values still to come, in order.
    pub open spec fn pending(self) -> Seq<K> {
        self.spec_set()@
    }

    /// The owned set is well-formed.
    pub open spec fn wf(self) -> bool {
        self.spec_set().wf()
    }

    /// The next value in ascending order, if one is left.
    pub fn next(&mut self) -> (res: Option<K>)
        requires
            old(self).wf(),
        ensures
            final(self).wf(),
            old(self).pending().len() == 0 ==> res is None,
            old(self).pending().len() > 0 ==> res == Some(old(self).pending()[0]) && final(self).pending() == old(self).pending().drop_first(),
    {
        self.tree.pop()
    }
}

} // verus!
