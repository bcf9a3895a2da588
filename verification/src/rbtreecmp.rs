//! The tree facade: one root, the injected comparator, and a cached count
//! of stored values, with the four primitive operation families (insert,
//! remove, extract-minimum, ordered traversal).

use vstd::prelude::*;

use crate::Comparator;
use crate::lawful_cmp;
use crate::lemma_lawful;
use crate::node::Colour;
use crate::node::Node;
use crate::node::del;
use crate::node::del_min;
use crate::node::find;
use crate::node::ins;
use crate::node::ordered_insertion;
use crate::node::paint_black;
use crate::olist::lemma_head_is_minimum;
use crate::olist::lemma_found_after_insert;
use crate::olist::lemma_insert_sorted;
use crate::olist::lemma_removed_shape;
use crate::olist::lemma_sorted_drop_first;
use crate::olist::lemma_sorted_remove_idx;
use crate::olist::seq_found;
use crate::olist::seq_insert;
use crate::olist::seq_removed;
use crate::olist::sorted_by;

verus! {

/// A red-black tree ordered by a caller-supplied comparator value.
pub struct RBTreeWithCmp<T, F: Comparator<T>> {
    root: Node<T>,
    cmp: F,
    contained: usize,
}

impl<T, F: Comparator<T>> RBTreeWithCmp<T, F> {
    /// The root node.
    pub closed spec fn spec_root(self) -> Node<T> {
        self.root
    }

    /// The comparator this tree was built with.
    pub closed spec fn spec_cmp_fn(self) -> F {
        self.cmp
    }

    /// The cached count of internal nodes.
    pub closed spec fn spec_contained(self) -> usize {
        self.contained
    }

    /// Well-formedness: the comparator is a lawful total preorder, no red
    /// node has a red child, the black-height is path-independent, the root
    /// is black, the in-order values ascend strictly, and the cached count
    /// equals the number of internal nodes reachable from the root.
    pub open spec fn wf(self) -> bool {
        &&& lawful_cmp::<T, F>(self.spec_cmp_fn())
        &&& self.spec_root().invc()
        &&& self.spec_root().invh()
        &&& self.spec_root().colour() == Colour::Black
        &&& sorted_by(self.spec_cmp_fn(), self.spec_root().inorder())
        &&& self.spec_contained() == self.spec_root().inorder().len()
    }

    /// Creates an empty tree around the given comparator.
    pub fn new(f: F) -> (t: RBTreeWithCmp<T, F>)
        ensures
            t.wf(),
            t@ == Seq::<T>::empty(),
            t.spec_cmp_fn() == f,
    {
        proof {
            lemma_lawful::<T, F>(&f);
        }
        let t = RBTreeWithCmp { root: Node::Leaf, cmp: f, contained: 0 };
        proof {
            assert(t.spec_root().inorder() =~= Seq::<T>::empty());
        }
        t
    }

    /// Inserts `val`, replacing and returning the previously stored value
    /// that compared equal to it, if there was one.
    pub fn replace(&mut self, val: T) -> (prev: Option<T>)
        requires
            old(self).wf(),
            old(self)@.len() < usize::MAX,
        ensures
            final(self).wf(),
            final(self).spec_cmp_fn() == old(self).spec_cmp_fn(),
            final(self)@ == seq_insert(old(self).spec_cmp_fn(), old(self)@, val),
            prev == seq_found(old(self).spec_cmp_fn(), old(self)@, val),
            final(self)@.len() == old(self)@.len() + (if prev is Some {
                0int
            } else {
                1int
            }),
    {
        let ghost s0 = self.root.inorder();
        proof {
            lemma_insert_sorted(self.cmp, s0, val);
        }
        let mut root = Node::Leaf;
        std::mem::swap(&mut root, &mut self.root);
        let (root2, prev) = ins(root, val, &self.cmp);
        proof {
            assert(root2.invc2());
        }
        self.root = paint_black(root2);
        if prev.is_none() {
            self.contained = self.contained + 1;
        }
        prev
    }

    /// Inserts `val`; the result says whether it was new to the tree (an
    /// equal value is replaced and reported as already present).
    pub fn insert(&mut self, val: T) -> (added: bool)
        requires
            old(self).wf(),
            old(self)@.len() < usize::MAX,
        ensures
            final(self).wf(),
            final(self).spec_cmp_fn() == old(self).spec_cmp_fn(),
            final(self)@ == seq_insert(old(self).spec_cmp_fn(), old(self)@, val),
            added == (seq_found(old(self).spec_cmp_fn(), old(self)@, val) is None),
            final(self)@.len() == old(self)@.len() + (if added {
                1int
            } else {
                0int
            }),
    {
        match self.replace(val) {
            Some(_) => false,
            None => true,
        }
    }

    /// Removes the value comparing equal to `val` and returns it; when no
    /// value matches, the tree is left exactly as it was.
    pub fn take(&mut self, val: &T) -> (removed: Option<T>)
        requires
            old(self).wf(),
        ensures
            final(self).wf(),
            final(self).spec_cmp_fn() == old(self).spec_cmp_fn(),
            removed == seq_found(old(self).spec_cmp_fn(), old(self)@, *val),
            final(self)@ == seq_removed(old(self).spec_cmp_fn(), old(self)@, *val),
            removed is None ==> *final(self) == *old(self),
            final(self)@.len() == old(self)@.len() - (if removed is Some {
                1int
            } else {
                0int
            }),
    {
        let ghost s0 = self.root.inorder();
        proof {
            lemma_removed_shape(self.cmp, s0, *val);
        }
        let present = find(&self.root, val, &self.cmp).is_some();
        if !present {
            return None;
        }
        let mut root = Node::Leaf;
        std::mem::swap(&mut root, &mut self.root);
        let (root2, m) = del(root, val, &self.cmp);
        self.root = paint_black(root2);
        proof {
            let k = choose|k: int|
                0 <= k < s0.len() && s0[k] == seq_found(self.cmp, s0, *val).unwrap()
                    && #[trigger] self.cmp.spec_cmp(*val, s0[k]) == core::cmp::Ordering::Equal
                    && seq_removed(self.cmp, s0, *val) == s0.remove(k);
            lemma_sorted_remove_idx(self.cmp, s0, k);
        }
        self.contained = self.contained - 1;
        m
    }

    /// Removes the value comparing equal to `val`; the result says whether
    /// one was there. An absent value leaves the tree exactly as it was.
    pub fn remove(&mut self, val: &T) -> (was_present: bool)
        requires
            old(self).wf(),
        ensures
            final(self).wf(),
            final(self).spec_cmp_fn() == old(self).spec_cmp_fn(),
            was_present == (seq_found(old(self).spec_cmp_fn(), old(self)@, *val) is Some),
            final(self)@ == seq_removed(old(self).spec_cmp_fn(), old(self)@, *val),
            !was_present ==> *final(self) == *old(self),
            final(self)@.len() == old(self)@.len() - (if was_present {
                1int
            } else {
                0int
            }),
    {
        match self.take(val) {
            Some(_) => true,
            None => false,
        }
    }

    /// Extracts the least stored value; an empty tree yields nothing and is
    /// left exactly as it was.
    pub fn pop(&mut self) -> (min: Option<T>)
        requires
            old(self).wf(),
        ensures
            final(self).wf(),
            final(self).spec_cmp_fn() == old(self).spec_cmp_fn(),
            old(self)@.len() == 0 ==> min is None && *final(self) == *old(self),
            old(self)@.len() > 0 ==> min == Some(old(self)@[0]) && final(self)@ == old(self)@.drop_first(),
    {
        let ghost s0 = self.root.inorder();
        if self.root.is_terminal() {
            proof {
                assert(s0 =~= Seq::<T>::empty());
            }
            return None;
        }
        let mut root = Node::Leaf;
        std::mem::swap(&mut root, &mut self.root);
        let (root2, m) = del_min(root);
        self.root = paint_black(root2);
        proof {
            lemma_sorted_drop_first(self.cmp, s0);
        }
        self.contained = self.contained - 1;
        m
    }

    /// Looks up the stored value comparing equal to `val`.
    pub fn get(&self, val: &T) -> (res: Option<&T>)
        requires
            self.wf(),
        ensures
            match res {
                Some(p) => seq_found(self.spec_cmp_fn(), self@, *val) == Some(*p),
                None => seq_found(self.spec_cmp_fn(), self@, *val) is None,
            },
    {
        find(&self.root, val, &self.cmp)
    }

    /// The number of stored values.
    pub fn len(&self) -> (n: usize)
        ensures
            n == self.spec_contained(),
            self.wf() ==> n == self@.len(),
    {
        self.contained
    }

    /// Whether the tree stores nothing.
    pub fn is_empty(&self) -> (e: bool)
        ensures
            e == (self.spec_contained() == 0),
            self.wf() ==> e == (self@.len() == 0),
    {
        self.len() == 0
    }

    /// An eager ordered snapshot: references to every stored value, in
    /// ascending comparator order.
    pub fn ordered(&self) -> (out: Vec<&T>)
        ensures
            out@.len() == self@.len(),
            forall|i: int| 0 <= i < out@.len() ==> *out@[i] == self@[i],
    {
        let mut order: Vec<&T> = Vec::new();
        ordered_insertion(&self.root, &mut order);
        order
    }

    /// Read-only access to the root node, for structural inspection.
    pub fn root(&self) -> (r: &Node<T>)
        ensures
            *r == self.spec_root(),
    {
        &self.root
    }

    /// A lazy in-order cursor over the stored values.
    pub fn iter(&self) -> (it: Iter<T>)
        requires
            self.wf(),
        ensures
            it.wf(),
            it.pending() == self@,
    {
        let mut ordered: Vec<&Node<T>> = Vec::new();
        proof {
            assert(stack_nodes(ordered@) =~= Seq::<Node<T>>::empty());
            assert(stack_pending(stack_nodes(ordered@)) =~= Seq::<T>::empty());
        }
        insert_left_down(&self.root, &mut ordered);
        proof {
            assert(stack_pending(stack_nodes(ordered@)) =~= self@);
        }
        Iter { remaining: self.len(), ordered }
    }

    /// A consuming cursor that drains the tree in ascending order.
    pub fn into_iter(self) -> (it: IntoIter<T, F>)
        requires
            self.wf(),
        ensures
            it.wf(),
            it.pending() == self@,
    {
        IntoIter { tree: self }
    }
}

impl<T, F: Comparator<T>> View for RBTreeWithCmp<T, F> {
    type V = Seq<T>;

    /// The tree viewed as its ascending sequence of stored values.
    open spec fn view(&self) -> Seq<T> {
        self.spec_root().inorder()
    }
}

/// What one stacked node still owes the traversal: its own value, then its
/// whole right subtree.
pub open spec fn node_pending<T>(n: Node<T>) -> Seq<T> {
    match n {
        Node::Leaf => Seq::empty(),
        Node::Internal(_, _, v, r) => seq![v] + r.inorder(),
    }
}

/// What a whole stack of pending nodes still owes, top entry first.
pub open spec fn stack_pending<T>(s: Seq<Node<T>>) -> Seq<T>
    decreases s.len(),
{
    if s.len() == 0 {
        Seq::empty()
    } else {
        node_pending(s.last()) + stack_pending(s.drop_last())
    }
}

/// The nodes a stack of references points at.
pub open spec fn stack_nodes<T>(s: Seq<&Node<T>>) -> Seq<Node<T>> {
    s.map_values(|p: &Node<T>| *p)
}

/// Pushes `t` and then its whole left spine, so that the values of `t` come
/// off the stack in ascending order before whatever was below.
fn insert_left_down<'a, T>(t: &'a Node<T>, stack: &mut Vec<&'a Node<T>>)
    ensures
        final(stack)@.len() >= old(stack)@.len(),
        forall|i: int| 0 <= i < old(stack)@.len() ==> final(stack)@[i] == old(stack)@[i],
        forall|i: int|
            old(stack)@.len() <= i < final(stack)@.len() ==> (*final(stack)@[i]) is Internal,
        stack_pending(stack_nodes(final(stack)@)) == t.inorder() + stack_pending(
            stack_nodes(old(stack)@),
        ),
    decreases t,
{
    match t {
        Node::Leaf => {
            proof {
                assert(t.inorder() + stack_pending(stack_nodes(stack@)) =~= stack_pending(
                    stack_nodes(stack@),
                ));
            }
        },
        Node::Internal(_, l, v, r) => {
            let ghost before = stack@;
            stack.push(t);
            proof {
                assert(stack_nodes(stack@) =~= stack_nodes(before).push(*t));
                assert(stack_nodes(stack@).last() == *t);
                assert(stack_nodes(stack@).drop_last() =~= stack_nodes(before));
                assert(stack_pending(stack_nodes(stack@)) == node_pending(*t) + stack_pending(
                    stack_nodes(before),
                ));
            }
            let ghost mid = stack@;
            insert_left_down(l, stack);
            proof {
                assert(t.inorder() == l.inorder() + seq![*v] + r.inorder());
                assert(node_pending(*t) == seq![*v] + r.inorder());
                assert(stack_pending(stack_nodes(stack@)) =~= t.inorder() + stack_pending(
                    stack_nodes(before),
                ));
            }
        },
    }
}

/// The lazy in-order cursor: an explicit stack of the nodes whose value and
/// right subtree are still owed, along the current left spine.
pub struct Iter<'a, T> {
    remaining: usize,
    ordered: Vec<&'a Node<T>>,
}

impl<'a, T> Iter<'a, T> {
    /// The stacked nodes.
    pub closed spec fn spec_nodes(self) -> Seq<Node<T>> {
        stack_nodes(self.ordered@)
    }

    /// The cached number of values still to come.
    pub closed spec fn spec_remaining(self) -> usize {
        self.remaining
    }

    /// The values still to come, in order.
    pub open spec fn pending(self) -> Seq<T> {
        stack_pending(self.spec_nodes())
    }

    /// Every stacked node is internal, and the cached count is exact.
    pub open spec fn wf(self) -> bool {
        &&& forall|i: int| 0 <= i < self.spec_nodes().len() ==> self.spec_nodes()[i] is Internal
        &&& self.spec_remaining() == self.pending().len()
    }

    /// The next value in ascending order, if one is left.
    pub fn next(&mut self) -> (res: Option<&'a T>)
        requires
            old(self).wf(),
        ensures
            final(self).wf(),
            old(self).pending().len() == 0 ==> res is None && final(self).pending() == old(self).pending(),
            old(self).pending().len() > 0 ==> match res {
                Some(p) => *p == old(self).pending()[0] && final(self).pending() == old(self).pending().drop_first(),
                None => false,
            },
    {
        let ghost nodes0 = self.spec_nodes();
        let n = match self.ordered.pop() {
            Some(n) => n,
            None => {
                proof {
                    assert(nodes0.len() == 0);
                    assert(stack_nodes(self.ordered@) =~= nodes0);
                }
                return None;
            },
        };
        let ghost mid = self.ordered@;
        proof {
            assert(nodes0.last() == *n);
            assert(stack_nodes(mid) =~= nodes0.drop_last());
            assert(old(self).pending() == node_pending(*n) + stack_pending(nodes0.drop_last()));
            assert(nodes0[nodes0.len() - 1] is Internal);
        }
        match n {
            Node::Internal(_, _, v, r) => {
                proof {
                    assert(node_pending(*n) == seq![*v] + r.inorder());
                    assert(old(self).pending().len() > 0);
                    assert(old(self).pending()[0] == *v);
                }
                self.remaining = self.remaining - 1;
                insert_left_down(r, &mut self.ordered);
                proof {
                    assert(stack_pending(stack_nodes(self.ordered@)) == r.inorder()
                        + stack_pending(stack_nodes(mid)));
                    assert(self.pending() =~= old(self).pending().drop_first());
                    assert forall|i: int|
                        0 <= i < self.spec_nodes().len() implies self.spec_nodes()[i]
                        is Internal by {
                        if i < mid.len() {
                            assert(self.ordered@[i] == mid[i]);
                            assert(mid[i] == self.ordered@[i]);
                            assert(stack_nodes(mid)[i] == nodes0.drop_last()[i]);
                            assert(nodes0[i] is Internal);
                            assert(self.spec_nodes()[i] == *self.ordered@[i]);
                            assert(stack_nodes(mid)[i] == *mid[i]);
                        } else {
                            assert((*self.ordered@[i]) is Internal);
                            assert(self.spec_nodes()[i] == *self.ordered@[i]);
                        }
                    }
                }
                Some(v)
            },
            Node::Leaf => {
                proof {
                    assert(false);
                }
                vstd::pervasive::unreached()
            },
        }
    }
}

/// A consuming cursor: repeatedly extracts the minimum of the tree it owns.
pub struct IntoIter<T, F: Comparator<T>> {
    tree: RBTreeWithCmp<T, F>,
}

impl<T, F: Comparator<T>> IntoIter<T, F> {
    /// The tree still to be drained.
    pub closed spec fn spec_tree(self) -> RBTreeWithCmp<T, F> {
        self.tree
    }

    /// The values still to come, in order.
    pub open spec fn pending(self) -> Seq<T> {
        self.spec_tree()@
    }

    /// The owned tree is well-formed.
    pub open spec fn wf(self) -> bool {
        self.spec_tree().wf()
    }

    /// The next value in ascending order, if one is left.
    pub fn next(&mut self) -> (res: Option<T>)
        requires
            old(self).wf(),
        ensures
            final(self).wf(),
            old(self).pending().len() == 0 ==> res is None && *final(self) == *old(self),
            old(self).pending().len() > 0 ==> res == Some(old(self).pending()[0]) && final(self).pending() == old(self).pending().drop_first(),
    {
        self.tree.pop()
    }

    /// How many values are still to come.
    pub fn len(&self) -> (n: usize)
        ensures
            n == self.spec_tree().spec_contained(),
            self.wf() ==> n == self.pending().len(),
    {
        self.tree.len()
    }
}

/// Inserting a value and then searching for it finds exactly that value;
/// inserting it a second time hands the first insertion back as the
/// replaced value and leaves the length unchanged.
pub proof fn lemma_insert_then_get<T, F: Comparator<T>>(t: RBTreeWithCmp<T, F>, v: T)
    requires
        t.wf(),
    ensures
        seq_found(t.spec_cmp_fn(), seq_insert(t.spec_cmp_fn(), t@, v), v) == Some(v),
        seq_insert(t.spec_cmp_fn(), seq_insert(t.spec_cmp_fn(), t@, v), v).len() == seq_insert(
            t.spec_cmp_fn(),
            t@,
            v,
        ).len(),
{
    let c = t.spec_cmp_fn();
    lemma_insert_sorted(c, t@, v);
    lemma_found_after_insert(c, t@, v);
    lemma_insert_sorted(c, seq_insert(c, t@, v), v);
}

/// Removing a value that no stored value compares equal to changes nothing.
pub proof fn lemma_remove_absent<T, F: Comparator<T>>(t: RBTreeWithCmp<T, F>, v: T)
    requires
        t.wf(),
        seq_found(t.spec_cmp_fn(), t@, v) is None,
    ensures
        seq_removed(t.spec_cmp_fn(), t@, v) == t@,
{
    lemma_removed_shape(t.spec_cmp_fn(), t@, v);
}

/// What extraction hands out first is the strict minimum of the tree.
pub proof fn lemma_pop_is_minimum<T, F: Comparator<T>>(t: RBTreeWithCmp<T, F>)
    requires
        t.wf(),
        t@.len() > 0,
    ensures
        forall|i: int|
            1 <= i < t@.len() ==> #[trigger] t.spec_cmp_fn().spec_cmp(t@[0], t@[i])
                == core::cmp::Ordering::Less,
{
    lemma_head_is_minimum(t.spec_cmp_fn(), t@);
}

} // verus!
