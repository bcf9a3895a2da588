//! The recursive node representation and the balancing engine.
//!
//! A node is either a terminal (always black) or an internal cell holding a
//! value, a colour and two owned subtrees. The algorithms are top-down and
//! recursive: they consume a subtree and return the rebalanced replacement,
//! threading rebalancing information back through return values instead of
//! parent pointers.
//!
//! The two red-black invariants are `invc` (no red node has a red child) and
//! `invh` (every path from a node to a terminal beneath it crosses the same
//! number of black nodes). Insertion may hand back a subtree whose root
//! joins one red-red edge (`invc_partial`); deletion may hand back one whose
//! root colour is unconstrained (`invc2`) together with a black-height
//! deficit, which the caller repairs level by level.

use vstd::prelude::*;

use crate::Comparator;
use crate::lawful_cmp;
use crate::olist::lemma_found_left;
use crate::olist::lemma_found_skip;
use crate::olist::lemma_insert_left;
use crate::olist::lemma_insert_skip;
use crate::olist::lemma_removed_left;
use crate::olist::lemma_removed_skip;
use crate::olist::lemma_sorted_parts;
use crate::olist::seq_found;
use crate::olist::seq_insert;
use crate::olist::seq_removed;
use crate::olist::sorted_by;

verus! {

/// The colour tag of a node.
#[derive(Clone, Copy, PartialEq, Eq, Structural)]
pub enum Colour {
    Red,
    Black,
}

/// A subtree: the fixed black terminal, or an internal cell with a colour,
/// a left subtree, a value and a right subtree.
pub enum Node<T> {
    Leaf,
    Internal(Colour, Box<Node<T>>, T, Box<Node<T>>),
}

impl<T> Node<T> {
    /// The values of the subtree in in-order (ascending) order.
    pub open spec fn inorder(self) -> Seq<T>
        decreases self,
    {
        match self {
            Node::Leaf => Seq::empty(),
            Node::Internal(_, l, v, r) => l.inorder() + seq![v] + r.inorder(),
        }
    }

    /// The colour of the root of this subtree; terminals count as black.
    pub open spec fn colour(self) -> Colour {
        match self {
            Node::Leaf => Colour::Black,
            Node::Internal(co, _, _, _) => co,
        }
    }

    /// Colour invariant: no red node has a red child.
    pub open spec fn invc(self) -> bool
        decreases self,
    {
        match self {
            Node::Leaf => true,
            Node::Internal(co, l, _, r) => {
                &&& (co == Colour::Red ==> l.colour() == Colour::Black && r.colour()
                    == Colour::Black)
                &&& l.invc()
                &&& r.invc()
            },
        }
    }

    /// Both subtrees keep the colour invariant; the root itself may sit on
    /// red-red edges.
    pub open spec fn invc2(self) -> bool {
        match self {
            Node::Leaf => true,
            Node::Internal(_, l, _, r) => l.invc() && r.invc(),
        }
    }

    /// What insertion hands upward: both subtrees keep the colour invariant,
    /// and a red root has at most one red child.
    pub open spec fn invc_partial(self) -> bool {
        match self {
            Node::Leaf => true,
            Node::Internal(co, l, _, r) => {
                &&& l.invc()
                &&& r.invc()
                &&& (co == Colour::Red ==> !(l.colour() == Colour::Red && r.colour()
                    == Colour::Red))
            },
        }
    }

    /// Black-height: the number of black nodes on a path down to a terminal,
    /// not counting this node.
    pub open spec fn bh(self) -> nat
        decreases self,
    {
        match self {
            Node::Leaf => 0,
            Node::Internal(co, l, _, _) => l.bh() + if co == Colour::Black {
                1nat
            } else {
                0nat
            },
        }
    }

    /// Height invariant: the black-height is the same along every path.
    pub open spec fn invh(self) -> bool
        decreases self,
    {
        match self {
            Node::Leaf => true,
            Node::Internal(_, l, _, r) => l.bh() == r.bh() && l.invh() && r.invh(),
        }
    }

    /// Whether this subtree is a terminal.
    pub fn is_terminal(&self) -> (b: bool)
        ensures
            b == (self is Leaf),
    {
        match self {
            Node::Leaf => true,
            Node::Internal(..) => false,
        }
    }

    /// Whether the root of this subtree is red.
    pub fn is_red(&self) -> (b: bool)
        ensures
            b == (self.colour() == Colour::Red),
    {
        match self {
            Node::Internal(Colour::Red, ..) => true,
            _ => false,
        }
    }

    /// The stored value, if this is an internal node.
    pub fn value(&self) -> (v: Option<&T>)
        ensures
            match v {
                Some(p) => self matches Node::Internal(_, _, x, _) && *p == x,
                None => self is Leaf,
            },
    {
        match self {
            Node::Leaf => None,
            Node::Internal(_, _, v, _) => Some(v),
        }
    }

    /// The left subtree, if this is an internal node.
    pub fn left(&self) -> (res: Option<&Node<T>>)
        ensures
            match res {
                Some(p) => self matches Node::Internal(_, l, _, _) && *p == *l,
                None => self is Leaf,
            },
    {
        match self {
            Node::Leaf => None,
            Node::Internal(_, l, _, _) => Some(l),
        }
    }

    /// The right subtree, if this is an internal node.
    pub fn right(&self) -> (res: Option<&Node<T>>)
        ensures
            match res {
                Some(p) => self matches Node::Internal(_, _, _, r) && *p == *r,
                None => self is Leaf,
            },
    {
        match self {
            Node::Leaf => None,
            Node::Internal(_, _, _, r) => Some(r),
        }
    }
}

/// Repaints the root black, leaving everything else alone.
pub(crate) fn paint_black<T>(t: Node<T>) -> (res: Node<T>)
    ensures
        res.inorder() == t.inorder(),
        res.colour() == Colour::Black,
        t.invc2() ==> res.invc(),
        t.invh() ==> res.invh(),
        res.bh() == t.bh() + (if t.colour() == Colour::Red {
            1nat
        } else {
            0nat
        }),
        (res is Leaf) == (t is Leaf),
{
    match t {
        Node::Leaf => Node::Leaf,
        Node::Internal(_, l, v, r) => Node::Internal(Colour::Black, l, v, r),
    }
}

/// Repaints a black internal root red, trading one black level away.
fn paint_red<T>(t: Node<T>) -> (res: Node<T>)
    requires
        t is Internal,
        t.colour() == Colour::Black,
    ensures
        res.inorder() == t.inorder(),
        res.colour() == Colour::Red,
        t.invc() ==> res.invc2(),
        t.invh() ==> res.invh(),
        res.bh() + 1 == t.bh(),
{
    match t {
        Node::Leaf => t,
        Node::Internal(_, l, v, r) => Node::Internal(Colour::Red, l, v, r),
    }
}

/// Builds an internal node; its contract states every structural measure in
/// terms of the parts, so callers never unfold the recursive definitions.
fn mk<T>(co: Colour, l: Node<T>, v: T, r: Node<T>) -> (res: Node<T>)
    ensures
        res is Internal,
        res.colour() == co,
        res.inorder() == l.inorder() + seq![v] + r.inorder(),
        res.bh() == l.bh() + (if co == Colour::Black {
            1nat
        } else {
            0nat
        }),
        res.invh() == (l.bh() == r.bh() && l.invh() && r.invh()),
        res.invc() == ((co == Colour::Red ==> l.colour() == Colour::Black && r.colour()
            == Colour::Black) && l.invc() && r.invc()),
        res.invc2() == (l.invc() && r.invc()),
        res.invc_partial() == (l.invc() && r.invc() && (co == Colour::Red ==> !(l.colour()
            == Colour::Red && r.colour() == Colour::Red))),
{
    Node::Internal(co, Box::new(l), v, Box::new(r))
}

/// Insertion fixup after descending left from a black node: resolves a
/// red-red edge at the top of `l` by recolouring (red uncle) or by a
/// single or double rotation (black uncle), exactly one case per level.
fn ibal_l<T>(l: Node<T>, a: T, r: Node<T>) -> (res: Node<T>)
    requires
        l.invc_partial(),
        r.invc(),
        l.invh(),
        r.invh(),
        l.bh() == r.bh(),
    ensures
        res.invc(),
        res.invh(),
        res.bh() == l.bh() + 1,
        res.inorder() == l.inorder() + seq![a] + r.inorder(),
{
    let ghost l0 = l;
    let ghost r0 = r;
    match l {
        Node::Internal(Colour::Red, ll, y, lr) => {
            proof {
                assert(l0.inorder() == ll.inorder() + seq![y] + lr.inorder());
                assert(l0.invc_partial());
                assert(l0.invh());
                assert((*ll).invc() && (*lr).invc() && (*ll).bh() == (*lr).bh() && (*ll).invh()
                    && (*lr).invh());
                assert(l0.bh() == (*ll).bh());
            }
            match (*ll, *lr) {
                (Node::Internal(Colour::Red, t1, x, t2), lrn) => {
                    proof {
                        assert((*ll).inorder() == t1.inorder() + seq![x] + t2.inorder());
                        assert((*ll).invc());
                        assert((*ll).invh());
                        assert(t1.colour() == Colour::Black && t2.colour() == Colour::Black
                            && t1.invc() && t2.invc() && t1.invh() && t2.invh());
                        assert((*ll).bh() == t1.bh() && t1.bh() == t2.bh());
                        assert(lrn.colour() == Colour::Black);
                    }
                    if r.is_red() {
                        let low = mk(Colour::Red, *t1, x, *t2);
                        let mid = mk(Colour::Black, low, y, lrn);
                        let res = mk(Colour::Red, mid, a, paint_black(r));
                        proof {
                            assert(res.inorder() =~= l0.inorder() + seq![a] + r0.inorder());
                        }
                        res
                    } else {
                        let low = mk(Colour::Red, *t1, x, *t2);
                        let rgt = mk(Colour::Red, lrn, a, r);
                        let res = mk(Colour::Black, low, y, rgt);
                        proof {
                            assert(res.inorder() =~= l0.inorder() + seq![a] + r0.inorder());
                        }
                        res
                    }
                },
                (lln, Node::Internal(Colour::Red, t2, x, t3)) => {
                    proof {
                        assert((*lr).inorder() == t2.inorder() + seq![x] + t3.inorder());
                        assert((*lr).invc());
                        assert((*lr).invh());
                        assert(t2.colour() == Colour::Black && t3.colour() == Colour::Black
                            && t2.invc() && t3.invc() && t2.invh() && t3.invh());
                        assert((*lr).bh() == t2.bh() && t2.bh() == t3.bh());
                        assert(lln.colour() == Colour::Black);
                    }
                    if r.is_red() {
                        let low = mk(Colour::Red, *t2, x, *t3);
                        let mid = mk(Colour::Black, lln, y, low);
                        let res = mk(Colour::Red, mid, a, paint_black(r));
                        proof {
                            assert(res.inorder() =~= l0.inorder() + seq![a] + r0.inorder());
                        }
                        res
                    } else {
                        let lft = mk(Colour::Red, lln, y, *t2);
                        let rgt = mk(Colour::Red, *t3, a, r);
                        let res = mk(Colour::Black, lft, x, rgt);
                        proof {
                            assert(res.inorder() =~= l0.inorder() + seq![a] + r0.inorder());
                        }
                        res
                    }
                },
                (lln, lrn) => {
                    let lft = mk(Colour::Red, lln, y, lrn);
                    let res = mk(Colour::Black, lft, a, r);
                    proof {
                        assert(res.inorder() =~= l0.inorder() + seq![a] + r0.inorder());
                    }
                    res
                },
            }
        },
        other => {
            let res = mk(Colour::Black, other, a, r);
            proof {
                assert(res.inorder() =~= l0.inorder() + seq![a] + r0.inorder());
            }
            res
        },
    }
}

/// Mirror image of `ibal_l`, for a red-red edge at the top of `r`.
fn ibal_r<T>(l: Node<T>, a: T, r: Node<T>) -> (res: Node<T>)
    requires
        r.invc_partial(),
        l.invc(),
        l.invh(),
        r.invh(),
        l.bh() == r.bh(),
    ensures
        res.invc(),
        res.invh(),
        res.bh() == l.bh() + 1,
        res.inorder() == l.inorder() + seq![a] + r.inorder(),
{
    let ghost l0 = l;
    let ghost r0 = r;
    match r {
        Node::Internal(Colour::Red, rl, y, rr) => {
            proof {
                assert(r0.inorder() == rl.inorder() + seq![y] + rr.inorder());
                assert(r0.invc_partial());
                assert(r0.invh());
                assert((*rl).invc() && (*rr).invc() && (*rl).bh() == (*rr).bh() && (*rl).invh()
                    && (*rr).invh());
                assert(r0.bh() == (*rl).bh());
            }
            match (*rl, *rr) {
                (rln, Node::Internal(Colour::Red, t2, x, t3)) => {
                    proof {
                        assert((*rr).inorder() == t2.inorder() + seq![x] + t3.inorder());
                        assert((*rr).invc());
                        assert((*rr).invh());
                        assert(t2.colour() == Colour::Black && t3.colour() == Colour::Black
                            && t2.invc() && t3.invc() && t2.invh() && t3.invh());
                        assert((*rr).bh() == t2.bh() && t2.bh() == t3.bh());
                        assert(rln.colour() == Colour::Black);
                    }
                    if l.is_red() {
                        let low = mk(Colour::Red, *t2, x, *t3);
                        let mid = mk(Colour::Black, rln, y, low);
                        let res = mk(Colour::Red, paint_black(l), a, mid);
                        proof {
                            assert(res.inorder() =~= l0.inorder() + seq![a] + r0.inorder());
                        }
                        res
                    } else {
                        let lft = mk(Colour::Red, l, a, rln);
                        let rgt = mk(Colour::Red, *t2, x, *t3);
                        let res = mk(Colour::Black, lft, y, rgt);
                        proof {
                            assert(res.inorder() =~= l0.inorder() + seq![a] + r0.inorder());
                        }
                        res
                    }
                },
                (Node::Internal(Colour::Red, t1, x, t2), rrn) => {
                    proof {
                        assert((*rl).inorder() == t1.inorder() + seq![x] + t2.inorder());
                        assert((*rl).invc());
                        assert((*rl).invh());
                        assert(t1.colour() == Colour::Black && t2.colour() == Colour::Black
                            && t1.invc() && t2.invc() && t1.invh() && t2.invh());
                        assert((*rl).bh() == t1.bh() && t1.bh() == t2.bh());
                        assert(rrn.colour() == Colour::Black);
                    }
                    if l.is_red() {
                        let low = mk(Colour::Red, *t1, x, *t2);
                        let mid = mk(Colour::Black, low, y, rrn);
                        let res = mk(Colour::Red, paint_black(l), a, mid);
                        proof {
                            assert(res.inorder() =~= l0.inorder() + seq![a] + r0.inorder());
                        }
                        res
                    } else {
                        let lft = mk(Colour::Red, l, a, *t1);
                        let rgt = mk(Colour::Red, *t2, y, rrn);
                        let res = mk(Colour::Black, lft, x, rgt);
                        proof {
                            assert(res.inorder() =~= l0.inorder() + seq![a] + r0.inorder());
                        }
                        res
                    }
                },
                (rln, rrn) => {
                    let rgt = mk(Colour::Red, rln, y, rrn);
                    let res = mk(Colour::Black, l, a, rgt);
                    proof {
                        assert(res.inorder() =~= l0.inorder() + seq![a] + r0.inorder());
                    }
                    res
                },
            }
        },
        other => {
            let res = mk(Colour::Black, l, a, other);
            proof {
                assert(res.inorder() =~= l0.inorder() + seq![a] + r0.inorder());
            }
            res
        },
    }
}

/// Recursive insertion. Descends by comparison; a terminal becomes a fresh
/// red node, a comparator-equal value is replaced in place (the old value is
/// the result), and on the way back up a black node resolves any red-red
/// edge its child reported.
pub(crate) fn ins<T, F: Comparator<T>>(t: Node<T>, x: T, c: &F) -> (res: (Node<T>, Option<T>))
    requires
        lawful_cmp::<T, F>(*c),
        sorted_by(*c, t.inorder()),
        t.invc(),
        t.invh(),
    ensures
        res.0.inorder() == seq_insert(*c, t.inorder(), x),
        res.1 == seq_found(*c, t.inorder(), x),
        res.0.invh(),
        res.0.bh() == t.bh(),
        res.0.invc_partial(),
        t.colour() == Colour::Black ==> res.0.invc(),
    decreases t,
{
    match t {
        Node::Leaf => {
            let res = Node::Internal(Colour::Red, Box::new(Node::Leaf), x, Box::new(Node::Leaf));
            proof {
                assert(res.inorder() =~= seq![x]);
            }
            (res, None)
        },
        Node::Internal(co, l, v, r) => {
            let ghost li = l.inorder();
            let ghost ri = r.inorder();
            let ghost ti = li + seq![v] + ri;
            proof {
                lemma_sorted_parts(*c, li, v, ri);
            }
            match c.cmp(&x, &v) {
                core::cmp::Ordering::Less => {
                    proof {
                        lemma_insert_left(*c, li, v, ri, x);
                        lemma_found_left(*c, li, v, ri, x);
                    }
                    let (l2, prev) = ins(*l, x, c);
                    if co == Colour::Black {
                        let res = ibal_l(l2, v, *r);
                        proof {
                            assert(res.inorder() =~= seq_insert(*c, ti, x));
                        }
                        (res, prev)
                    } else {
                        let res = Node::Internal(Colour::Red, Box::new(l2), v, r);
                        proof {
                            assert(res.inorder() =~= seq_insert(*c, ti, x));
                        }
                        (res, prev)
                    }
                },
                core::cmp::Ordering::Equal => {
                    proof {
                        assert forall|i: int| 0 <= i < li.len() implies #[trigger] c.spec_cmp(
                            x,
                            li[i],
                        ) == core::cmp::Ordering::Greater by {
                            assert(c.spec_cmp(li[i], v) == core::cmp::Ordering::Less);
                            assert(c.spec_cmp(x, li[i]) == c.spec_cmp(v, li[i]));
                            assert(c.spec_cmp(v, li[i]) == crate::flip_ordering(
                                c.spec_cmp(li[i], v),
                            ));
                        }
                        lemma_insert_skip(*c, li, seq![v] + ri, x);
                        lemma_found_skip(*c, li, seq![v] + ri, x);
                        assert(ti =~= li + (seq![v] + ri));
                        assert((seq![v] + ri)[0] == v);
                        assert((seq![v] + ri).drop_first() =~= ri);
                        assert(seq_insert(*c, seq![v] + ri, x) == seq![x] + ri);
                        assert(seq_found(*c, seq![v] + ri, x) == Some(v));
                    }
                    let res = Node::Internal(co, l, x, r);
                    proof {
                        assert(res.inorder() =~= seq_insert(*c, ti, x));
                    }
                    (res, Some(v))
                },
                core::cmp::Ordering::Greater => {
                    proof {
                        assert(c.spec_cmp(v, x) == crate::flip_ordering(c.spec_cmp(x, v)));
                        assert forall|i: int| 0 <= i < (li + seq![v]).len() implies #[trigger] c.spec_cmp(
                            x,
                            (li + seq![v])[i],
                        ) == core::cmp::Ordering::Greater by {
                            if i < li.len() {
                                assert((li + seq![v])[i] == li[i]);
                                assert(c.spec_cmp(li[i], v) == core::cmp::Ordering::Less);
                                assert(c.spec_cmp(li[i], x) == core::cmp::Ordering::Less);
                                assert(c.spec_cmp(x, li[i]) == crate::flip_ordering(
                                    c.spec_cmp(li[i], x),
                                ));
                            } else {
                                assert((li + seq![v])[i] == v);
                            }
                        }
                        lemma_insert_skip(*c, li + seq![v], ri, x);
                        lemma_found_skip(*c, li + seq![v], ri, x);
                        assert(ti =~= (li + seq![v]) + ri);
                    }
                    let (r2, prev) = ins(*r, x, c);
                    if co == Colour::Black {
                        let res = ibal_r(*l, v, r2);
                        proof {
                            assert(res.inorder() =~= seq_insert(*c, ti, x));
                        }
                        (res, prev)
                    } else {
                        let res = Node::Internal(Colour::Red, l, v, Box::new(r2));
                        proof {
                            assert(res.inorder() =~= seq_insert(*c, ti, x));
                        }
                        (res, prev)
                    }
                },
            }
        },
    }
}

/// Deletion-side rotation fixup: like `ibal_l` it resolves a red-red edge
/// at the top of `l`, but paints the produced subtree root red between two
/// freshly blackened children, which tolerates two red children below `l`.
fn dbal_l<T>(l: Node<T>, a: T, r: Node<T>) -> (res: Node<T>)
    requires
        l.invc2(),
        r.invc(),
        l.invh(),
        r.invh(),
        l.bh() == r.bh(),
    ensures
        res.invc(),
        res.invh(),
        res.bh() == l.bh() + 1,
        res.inorder() == l.inorder() + seq![a] + r.inorder(),
{
    let ghost l0 = l;
    let ghost r0 = r;
    match l {
        Node::Internal(Colour::Red, ll, y, lr) => {
            proof {
                assert(l0.inorder() == ll.inorder() + seq![y] + lr.inorder());
                assert(l0.invc2());
                assert(l0.invh());
                assert((*ll).invc() && (*lr).invc() && (*ll).bh() == (*lr).bh() && (*ll).invh()
                    && (*lr).invh());
                assert(l0.bh() == (*ll).bh());
            }
            match (*ll, *lr) {
                (Node::Internal(Colour::Red, t1, x, t2), lrn) => {
                    proof {
                        assert((*ll).inorder() == t1.inorder() + seq![x] + t2.inorder());
                        assert((*ll).invc());
                        assert((*ll).invh());
                        assert(t1.colour() == Colour::Black && t2.colour() == Colour::Black
                            && t1.invc() && t2.invc() && t1.invh() && t2.invh());
                        assert((*ll).bh() == t1.bh() && t1.bh() == t2.bh());
                    }
                    let low = mk(Colour::Black, *t1, x, *t2);
                    let rgt = mk(Colour::Black, lrn, a, r);
                    let res = mk(Colour::Red, low, y, rgt);
                    proof {
                        assert(res.inorder() =~= l0.inorder() + seq![a] + r0.inorder());
                    }
                    res
                },
                (lln, Node::Internal(Colour::Red, t2, x, t3)) => {
                    proof {
                        assert((*lr).inorder() == t2.inorder() + seq![x] + t3.inorder());
                        assert((*lr).invc());
                        assert((*lr).invh());
                        assert(t2.colour() == Colour::Black && t3.colour() == Colour::Black
                            && t2.invc() && t3.invc() && t2.invh() && t3.invh());
                        assert((*lr).bh() == t2.bh() && t2.bh() == t3.bh());
                    }
                    let lft = mk(Colour::Black, lln, y, *t2);
                    let rgt = mk(Colour::Black, *t3, a, r);
                    let res = mk(Colour::Red, lft, x, rgt);
                    proof {
                        assert(res.inorder() =~= l0.inorder() + seq![a] + r0.inorder());
                    }
                    res
                },
                (lln, lrn) => {
                    let lft = mk(Colour::Red, lln, y, lrn);
                    let res = mk(Colour::Black, lft, a, r);
                    proof {
                        assert(res.inorder() =~= l0.inorder() + seq![a] + r0.inorder());
                    }
                    res
                },
            }
        },
        other => {
            let res = mk(Colour::Black, other, a, r);
            proof {
                assert(res.inorder() =~= l0.inorder() + seq![a] + r0.inorder());
            }
            res
        },
    }
}

/// Mirror image of `dbal_l`, for a red-red edge at the top of `r`.
fn dbal_r<T>(l: Node<T>, a: T, r: Node<T>) -> (res: Node<T>)
    requires
        r.invc2(),
        l.invc(),
        l.invh(),
        r.invh(),
        l.bh() == r.bh(),
    ensures
        res.invc(),
        res.invh(),
        res.bh() == l.bh() + 1,
        res.inorder() == l.inorder() + seq![a] + r.inorder(),
{
    let ghost l0 = l;
    let ghost r0 = r;
    match r {
        Node::Internal(Colour::Red, rl, y, rr) => {
            proof {
                assert(r0.inorder() == rl.inorder() + seq![y] + rr.inorder());
                assert(r0.invc2());
                assert(r0.invh());
                assert((*rl).invc() && (*rr).invc() && (*rl).bh() == (*rr).bh() && (*rl).invh()
                    && (*rr).invh());
                assert(r0.bh() == (*rl).bh());
            }
            match (*rl, *rr) {
                (rln, Node::Internal(Colour::Red, t2, x, t3)) => {
                    proof {
                        assert((*rr).inorder() == t2.inorder() + seq![x] + t3.inorder());
                        assert((*rr).invc());
                        assert((*rr).invh());
                        assert(t2.colour() == Colour::Black && t3.colour() == Colour::Black
                            && t2.invc() && t3.invc() && t2.invh() && t3.invh());
                        assert((*rr).bh() == t2.bh() && t2.bh() == t3.bh());
                    }
                    let lft = mk(Colour::Black, l, a, rln);
                    let rgt = mk(Colour::Black, *t2, x, *t3);
                    let res = mk(Colour::Red, lft, y, rgt);
                    proof {
                        assert(res.inorder() =~= l0.inorder() + seq![a] + r0.inorder());
                    }
                    res
                },
                (Node::Internal(Colour::Red, t1, x, t2), rrn) => {
                    proof {
                        assert((*rl).inorder() == t1.inorder() + seq![x] + t2.inorder());
                        assert((*rl).invc());
                        assert((*rl).invh());
                        assert(t1.colour() == Colour::Black && t2.colour() == Colour::Black
                            && t1.invc() && t2.invc() && t1.invh() && t2.invh());
                        assert((*rl).bh() == t1.bh() && t1.bh() == t2.bh());
                    }
                    let lft = mk(Colour::Black, l, a, *t1);
                    let rgt = mk(Colour::Black, *t2, y, rrn);
                    let res = mk(Colour::Red, lft, x, rgt);
                    proof {
                        assert(res.inorder() =~= l0.inorder() + seq![a] + r0.inorder());
                    }
                    res
                },
                (rln, rrn) => {
                    let rgt = mk(Colour::Red, rln, y, rrn);
                    let res = mk(Colour::Black, l, a, rgt);
                    proof {
                        assert(res.inorder() =~= l0.inorder() + seq![a] + r0.inorder());
                    }
                    res
                },
            }
        },
        other => {
            let res = mk(Colour::Black, l, a, other);
            proof {
                assert(res.inorder() =~= l0.inorder() + seq![a] + r0.inorder());
            }
            res
        },
    }
}

/// Repairs a black-height deficiency in `l`: `l` is one black level short of
/// `r`. One of the canonical deletion cases applies: red child recoloured
/// black, black sibling recoloured red (propagating the deficiency), or a
/// rotation through a red sibling.
#[verifier::rlimit(100)]
fn bald_l<T>(l: Node<T>, a: T, r: Node<T>) -> (res: Node<T>)
    requires
        l.invc2(),
        r.invc(),
        l.invh(),
        r.invh(),
        l.bh() + 1 == r.bh(),
    ensures
        res.invh(),
        res.bh() == r.bh(),
        res.invc2(),
        r.colour() == Colour::Black ==> res.invc(),
        res.inorder() == l.inorder() + seq![a] + r.inorder(),
{
    let ghost l0 = l;
    let ghost r0 = r;
    match l {
        Node::Internal(Colour::Red, ll, y, lr) => {
            proof {
                assert(l0.inorder() == ll.inorder() + seq![y] + lr.inorder());
                assert(l0.invc2());
                assert(l0.invh());
                assert(l0.bh() == (*ll).bh());
            }
            let lft = mk(Colour::Black, *ll, y, *lr);
            let res = mk(Colour::Red, lft, a, r);
            proof {
                assert(res.inorder() =~= l0.inorder() + seq![a] + r0.inorder());
            }
            res
        },
        other => {
            match r {
                Node::Internal(Colour::Black, rl, z, rr) => {
                    proof {
                        assert(r0.inorder() == rl.inorder() + seq![z] + rr.inorder());
                        assert(r0.invc());
                        assert(r0.invh());
                        assert(r0.bh() == (*rl).bh() + 1);
                        assert(other.invc());
                    }
                    let res = dbal_r(other, a, mk(Colour::Red, *rl, z, *rr));
                    proof {
                        assert(res.inorder() =~= l0.inorder() + seq![a] + r0.inorder());
                    }
                    res
                },
                Node::Internal(Colour::Red, rl, z, rr) => {
                    proof {
                        assert(r0.inorder() == rl.inorder() + seq![z] + rr.inorder());
                        assert(r0.invc());
                        assert(r0.invh());
                        assert((*rl).colour() == Colour::Black && (*rr).colour() == Colour::Black);
                        assert((*rl).invc() && (*rr).invc() && (*rl).invh() && (*rr).invh());
                        assert(r0.bh() == (*rl).bh() && (*rl).bh() == (*rr).bh());
                        assert(other.invc());
                        if (*rl) is Leaf {
                            assert((*rl).bh() == 0);
                            assert(false);
                        }
                    }
                    match *rl {
                        Node::Internal(Colour::Black, t2, b, t3) => {
                            proof {
                                assert((*rl).inorder() == t2.inorder() + seq![b] + t3.inorder());
                                assert((*rl).invc());
                                assert((*rl).invh());
                                assert(t2.invc() && t3.invc() && t2.invh() && t3.invh());
                                assert((*rl).bh() == t2.bh() + 1 && t2.bh() == t3.bh());
                                if (*rr) is Leaf {
                                    assert((*rr).bh() == 0);
                                    assert(false);
                                }
                            }
                            let inner = dbal_r(*t3, z, paint_red(*rr));
                            let lft = mk(Colour::Black, other, a, *t2);
                            let res = mk(Colour::Red, lft, b, inner);
                            proof {
                                assert(res.inorder() =~= l0.inorder() + seq![a] + r0.inorder());
                            }
                            res
                        },
                        _ => {
                            proof {
                                assert(false);
                            }
                            vstd::pervasive::unreached()
                        },
                    }
                },
                Node::Leaf => {
                    proof {
                        assert(r0.bh() == 0);
                        assert(false);
                    }
                    vstd::pervasive::unreached()
                },
            }
        },
    }
}

/// Mirror image of `bald_l`: repairs a black-height deficiency in `r`.
#[verifier::rlimit(100)]
fn bald_r<T>(l: Node<T>, a: T, r: Node<T>) -> (res: Node<T>)
    requires
        r.invc2(),
        l.invc(),
        l.invh(),
        r.invh(),
        l.bh() == r.bh() + 1,
    ensures
        res.invh(),
        res.bh() == l.bh(),
        res.invc2(),
        l.colour() == Colour::Black ==> res.invc(),
        res.inorder() == l.inorder() + seq![a] + r.inorder(),
{
    let ghost l0 = l;
    let ghost r0 = r;
    match r {
        Node::Internal(Colour::Red, rl, y, rr) => {
            proof {
                assert(r0.inorder() == rl.inorder() + seq![y] + rr.inorder());
                assert(r0.invc2());
                assert(r0.invh());
                assert(r0.bh() == (*rl).bh());
            }
            let rgt = mk(Colour::Black, *rl, y, *rr);
            let res = mk(Colour::Red, l, a, rgt);
            proof {
                assert(res.inorder() =~= l0.inorder() + seq![a] + r0.inorder());
            }
            res
        },
        other => {
            match l {
                Node::Internal(Colour::Black, ll, z, lr) => {
                    proof {
                        assert(l0.inorder() == ll.inorder() + seq![z] + lr.inorder());
                        assert(l0.invc());
                        assert(l0.invh());
                        assert(l0.bh() == (*ll).bh() + 1);
                        assert(other.invc());
                    }
                    let res = dbal_l(mk(Colour::Red, *ll, z, *lr), a, other);
                    proof {
                        assert(res.inorder() =~= l0.inorder() + seq![a] + r0.inorder());
                    }
                    res
                },
                Node::Internal(Colour::Red, ll, z, lr) => {
                    proof {
                        assert(l0.inorder() == ll.inorder() + seq![z] + lr.inorder());
                        assert(l0.invc());
                        assert(l0.invh());
                        assert((*ll).colour() == Colour::Black && (*lr).colour() == Colour::Black);
                        assert((*ll).invc() && (*lr).invc() && (*ll).invh() && (*lr).invh());
                        assert(l0.bh() == (*ll).bh() && (*ll).bh() == (*lr).bh());
                        assert(other.invc());
                        if (*lr) is Leaf {
                            assert((*lr).bh() == 0);
                            assert(false);
                        }
                    }
                    match *lr {
                        Node::Internal(Colour::Black, t2, b, t3) => {
                            proof {
                                assert((*lr).inorder() == t2.inorder() + seq![b] + t3.inorder());
                                assert((*lr).invc());
                                assert((*lr).invh());
                                assert(t2.invc() && t3.invc() && t2.invh() && t3.invh());
                                assert((*lr).bh() == t2.bh() + 1 && t2.bh() == t3.bh());
                                if (*ll) is Leaf {
                                    assert((*ll).bh() == 0);
                                    assert(false);
                                }
                            }
                            let inner = dbal_l(paint_red(*ll), z, *t2);
                            let rgt = mk(Colour::Black, *t3, a, other);
                            let res = mk(Colour::Red, inner, b, rgt);
                            proof {
                                assert(res.inorder() =~= l0.inorder() + seq![a] + r0.inorder());
                            }
                            res
                        },
                        _ => {
                            proof {
                                assert(false);
                            }
                            vstd::pervasive::unreached()
                        },
                    }
                },
                Node::Leaf => {
                    proof {
                        assert(l0.bh() == 0);
                        assert(false);
                    }
                    vstd::pervasive::unreached()
                },
            }
        },
    }
}

/// Rejoins a red node around the glued middle of its former subtrees.
fn glue_r<T>(t1: Node<T>, a: T, m: Node<T>, cc: T, t4: Node<T>) -> (res: Node<T>)
    requires
        t1.invc(),
        t4.invc(),
        m.invc(),
        t1.colour() == Colour::Black,
        t4.colour() == Colour::Black,
        t1.invh(),
        t4.invh(),
        m.invh(),
        t1.bh() == m.bh(),
        t4.bh() == m.bh(),
    ensures
        res.invc2(),
        res.invh(),
        res.bh() == t1.bh(),
        res.inorder() == t1.inorder() + seq![a] + m.inorder() + seq![cc] + t4.inorder(),
{
    let ghost m0 = m;
    match m {
        Node::Internal(Colour::Red, u2, b, u3) => {
            proof {
                assert(m0.inorder() == u2.inorder() + seq![b] + u3.inorder());
                assert(m0.invc());
                assert(m0.invh());
                assert(m0.bh() == (*u2).bh());
                assert((*u2).invc() && (*u3).invc() && (*u2).invh() && (*u3).invh());
                assert((*u2).colour() == Colour::Black && (*u3).colour() == Colour::Black);
                assert((*u2).bh() == (*u3).bh());
            }
            let lft = mk(Colour::Red, t1, a, *u2);
            let rgt = mk(Colour::Red, *u3, cc, t4);
            let res = mk(Colour::Red, lft, b, rgt);
            proof {
                assert(res.inorder() =~= t1.inorder() + seq![a] + m0.inorder() + seq![cc]
                    + t4.inorder());
            }
            res
        },
        mn => {
            let rgt = mk(Colour::Red, mn, cc, t4);
            let res = mk(Colour::Red, t1, a, rgt);
            proof {
                assert(res.inorder() =~= t1.inorder() + seq![a] + m0.inorder() + seq![cc]
                    + t4.inorder());
            }
            res
        },
    }
}

/// Rejoins a black node around the glued middle of its former subtrees,
/// repairing the deficiency the glueing may have left.
#[verifier::rlimit(100)]
fn glue_b<T>(t1: Node<T>, a: T, m: Node<T>, cc: T, t4: Node<T>) -> (res: Node<T>)
    requires
        t1.invc(),
        t4.invc(),
        m.invc2(),
        t1.invh(),
        t4.invh(),
        m.invh(),
        t1.bh() == m.bh(),
        t4.bh() == m.bh(),
    ensures
        res.invc(),
        res.invh(),
        res.bh() == t1.bh() + 1,
        res.inorder() == t1.inorder() + seq![a] + m.inorder() + seq![cc] + t4.inorder(),
{
    let ghost m0 = m;
    match m {
        Node::Internal(Colour::Red, u2, b, u3) => {
            proof {
                assert(m0.inorder() == u2.inorder() + seq![b] + u3.inorder());
                assert(m0.invc2());
                assert(m0.invh());
                assert(m0.bh() == (*u2).bh());
                assert((*u2).invc() && (*u3).invc() && (*u2).invh() && (*u3).invh());
                assert((*u2).bh() == (*u3).bh());
            }
            let lft = mk(Colour::Black, t1, a, *u2);
            let rgt = mk(Colour::Black, *u3, cc, t4);
            let res = mk(Colour::Red, lft, b, rgt);
            proof {
                assert(res.inorder() =~= t1.inorder() + seq![a] + m0.inorder() + seq![cc]
                    + t4.inorder());
            }
            res
        },
        mn => {
            proof {
                assert(mn.invc());
            }
            let rgt = mk(Colour::Black, mn, cc, t4);
            let res = bald_l(t1, a, rgt);
            proof {
                assert(res.inorder() =~= t1.inorder() + seq![a] + m0.inorder() + seq![cc]
                    + t4.inorder());
            }
            res
        },
    }
}

/// Glues the two subtrees of a removed node together, keeping in-order
/// sequence and black-height; the result may need one more repair above.
#[verifier::rlimit(100)]
fn join<T>(l: Node<T>, r: Node<T>) -> (res: Node<T>)
    requires
        l.invc(),
        r.invc(),
        l.invh(),
        r.invh(),
        l.bh() == r.bh(),
    ensures
        res.invh(),
        res.bh() == l.bh(),
        res.invc2(),
        l.colour() == Colour::Black && r.colour() == Colour::Black ==> res.invc(),
        res.inorder() == l.inorder() + r.inorder(),
    decreases l, r,
{
    let ghost l0 = l;
    let ghost r0 = r;
    match (l, r) {
        (Node::Leaf, rn) => {
            proof {
                assert(l0.inorder() + r0.inorder() =~= r0.inorder());
            }
            rn
        },
        (ln, Node::Leaf) => {
            proof {
                assert(l0.inorder() + r0.inorder() =~= l0.inorder());
            }
            ln
        },
        (Node::Internal(Colour::Red, t1, a, t2), Node::Internal(Colour::Red, t3, cc, t4)) => {
            proof {
                assert(l0.inorder() == t1.inorder() + seq![a] + t2.inorder());
                assert(r0.inorder() == t3.inorder() + seq![cc] + t4.inorder());
                assert(l0.invc() && r0.invc() && l0.invh() && r0.invh());
                assert(t1.colour() == Colour::Black && t2.colour() == Colour::Black && t3.colour()
                    == Colour::Black && t4.colour() == Colour::Black);
                assert(t1.invc() && t2.invc() && t3.invc() && t4.invc());
                assert(t1.invh() && t2.invh() && t3.invh() && t4.invh());
                assert(l0.bh() == t1.bh() && t1.bh() == t2.bh());
                assert(r0.bh() == t3.bh() && t3.bh() == t4.bh());
            }
            let m = join(*t2, *t3);
            let res = glue_r(*t1, a, m, cc, *t4);
            proof {
                assert(res.inorder() =~= t1.inorder() + seq![a] + (t2.inorder() + t3.inorder())
                    + seq![cc] + t4.inorder());
                assert(t1.inorder() + seq![a] + (t2.inorder() + t3.inorder()) + seq![cc]
                    + t4.inorder() =~= l0.inorder() + r0.inorder());
            }
            res
        },
        (Node::Internal(Colour::Black, t1, a, t2), Node::Internal(Colour::Black, t3, cc, t4)) => {
            proof {
                assert(l0.inorder() == t1.inorder() + seq![a] + t2.inorder());
                assert(r0.inorder() == t3.inorder() + seq![cc] + t4.inorder());
                assert(l0.invc() && r0.invc() && l0.invh() && r0.invh());
                assert(t1.invc() && t2.invc() && t3.invc() && t4.invc());
                assert(t1.invh() && t2.invh() && t3.invh() && t4.invh());
                assert(l0.bh() == t1.bh() + 1 && t1.bh() == t2.bh());
                assert(r0.bh() == t3.bh() + 1 && t3.bh() == t4.bh());
            }
            let m = join(*t2, *t3);
            let res = glue_b(*t1, a, m, cc, *t4);
            proof {
                assert(res.inorder() =~= t1.inorder() + seq![a] + (t2.inorder() + t3.inorder())
                    + seq![cc] + t4.inorder());
                assert(t1.inorder() + seq![a] + (t2.inorder() + t3.inorder()) + seq![cc]
                    + t4.inorder() =~= l0.inorder() + r0.inorder());
            }
            res
        },
        (ln, Node::Internal(Colour::Red, t2, a, t3)) => {
            proof {
                assert(r0.inorder() == t2.inorder() + seq![a] + t3.inorder());
                assert(r0.invc() && r0.invh());
                assert((*t2).colour() == Colour::Black && (*t3).colour() == Colour::Black);
                assert((*t2).invc() && (*t3).invc() && (*t2).invh() && (*t3).invh());
                assert(r0.bh() == (*t2).bh() && (*t2).bh() == (*t3).bh());
            }
            let lft = join(ln, *t2);
            let res = mk(Colour::Red, lft, a, *t3);
            proof {
                assert(res.inorder() =~= l0.inorder() + r0.inorder());
            }
            res
        },
        (Node::Internal(Colour::Red, t1, a, t2), rn) => {
            proof {
                assert(l0.inorder() == t1.inorder() + seq![a] + t2.inorder());
                assert(l0.invc() && l0.invh());
                assert((*t1).colour() == Colour::Black && (*t2).colour() == Colour::Black);
                assert((*t1).invc() && (*t2).invc() && (*t1).invh() && (*t2).invh());
                assert(l0.bh() == (*t1).bh() && (*t1).bh() == (*t2).bh());
            }
            let rgt = join(*t2, rn);
            let res = mk(Colour::Red, *t1, a, rgt);
            proof {
                assert(res.inorder() =~= l0.inorder() + r0.inorder());
            }
            res
        },
    }
}


/// Recursive removal. Descends by comparison; the matching node's subtrees
/// are glued together and its value returned, and on the way back up each
/// level repairs the black-height deficiency its child reported.
#[verifier::rlimit(100)]
pub(crate) fn del<T, F: Comparator<T>>(t: Node<T>, x: &T, c: &F) -> (res: (Node<T>, Option<T>))
    requires
        lawful_cmp::<T, F>(*c),
        sorted_by(*c, t.inorder()),
        t.invc(),
        t.invh(),
    ensures
        res.0.inorder() == seq_removed(*c, t.inorder(), *x),
        res.1 == seq_found(*c, t.inorder(), *x),
        res.0.invh(),
        t.colour() == Colour::Red ==> res.0.bh() == t.bh() && res.0.invc(),
        t.colour() == Colour::Black ==> res.0.invc2(),
        t is Internal && t.colour() == Colour::Black ==> res.0.bh() + 1 == t.bh(),
        t is Leaf ==> res.0 is Leaf,
    decreases t,
{
    let ghost t0 = t;
    match t {
        Node::Leaf => (Node::Leaf, None),
        Node::Internal(co, l, v, r) => {
            let ghost li = l.inorder();
            let ghost ri = r.inorder();
            let ghost ti = t0.inorder();
            proof {
                assert(ti == li + seq![v] + ri);
                lemma_sorted_parts(*c, li, v, ri);
                assert((*l).invc() && (*r).invc() && (*l).invh() && (*r).invh());
                assert((*l).bh() == (*r).bh());
                assert(t0.bh() == (*l).bh() + if co == Colour::Black {
                    1nat
                } else {
                    0nat
                });
                if co == Colour::Red {
                    assert((*l).colour() == Colour::Black && (*r).colour() == Colour::Black);
                }
            }
            let l_black_internal = !l.is_red() && !l.is_terminal();
            match c.cmp(x, &v) {
                core::cmp::Ordering::Less => {
                    proof {
                        lemma_removed_left(*c, li, v, ri, *x);
                        lemma_found_left(*c, li, v, ri, *x);
                    }
                    let (l2, m) = del(*l, x, c);
                    if l_black_internal {
                        let res = bald_l(l2, v, *r);
                        proof {
                            assert(res.inorder() =~= seq_removed(*c, ti, *x));
                        }
                        (res, m)
                    } else {
                        let res = mk(Colour::Red, l2, v, *r);
                        proof {
                            assert(res.inorder() =~= seq_removed(*c, ti, *x));
                        }
                        (res, m)
                    }
                },
                core::cmp::Ordering::Equal => {
                    proof {
                        assert forall|i: int| 0 <= i < li.len() implies #[trigger] c.spec_cmp(
                            *x,
                            li[i],
                        ) == core::cmp::Ordering::Greater by {
                            assert(c.spec_cmp(li[i], v) == core::cmp::Ordering::Less);
                            assert(c.spec_cmp(*x, li[i]) == c.spec_cmp(v, li[i]));
                            assert(c.spec_cmp(v, li[i]) == crate::flip_ordering(
                                c.spec_cmp(li[i], v),
                            ));
                        }
                        lemma_removed_skip(*c, li, seq![v] + ri, *x);
                        lemma_found_skip(*c, li, seq![v] + ri, *x);
                        assert(ti =~= li + (seq![v] + ri));
                        assert((seq![v] + ri)[0] == v);
                        assert((seq![v] + ri).drop_first() =~= ri);
                        assert(seq_removed(*c, seq![v] + ri, *x) == ri);
                        assert(seq_found(*c, seq![v] + ri, *x) == Some(v));
                    }
                    let res = join(*l, *r);
                    proof {
                        assert(res.inorder() =~= seq_removed(*c, ti, *x));
                    }
                    (res, Some(v))
                },
                core::cmp::Ordering::Greater => {
                    let r_black_internal = !r.is_red() && !r.is_terminal();
                    proof {
                        assert(c.spec_cmp(v, *x) == crate::flip_ordering(c.spec_cmp(*x, v)));
                        assert forall|i: int| 0 <= i < (li + seq![v]).len() implies #[trigger] c.spec_cmp(
                            *x,
                            (li + seq![v])[i],
                        ) == core::cmp::Ordering::Greater by {
                            if i < li.len() {
                                assert((li + seq![v])[i] == li[i]);
                                assert(c.spec_cmp(li[i], v) == core::cmp::Ordering::Less);
                                assert(c.spec_cmp(li[i], *x) == core::cmp::Ordering::Less);
                                assert(c.spec_cmp(*x, li[i]) == crate::flip_ordering(
                                    c.spec_cmp(li[i], *x),
                                ));
                            } else {
                                assert((li + seq![v])[i] == v);
                            }
                        }
                        lemma_removed_skip(*c, li + seq![v], ri, *x);
                        lemma_found_skip(*c, li + seq![v], ri, *x);
                        assert(ti =~= (li + seq![v]) + ri);
                    }
                    let (r2, m) = del(*r, x, c);
                    if r_black_internal {
                        let res = bald_r(*l, v, r2);
                        proof {
                            assert(res.inorder() =~= seq_removed(*c, ti, *x));
                        }
                        (res, m)
                    } else {
                        let res = mk(Colour::Red, *l, v, r2);
                        proof {
                            assert(res.inorder() =~= seq_removed(*c, ti, *x));
                        }
                        (res, m)
                    }
                },
            }
        },
    }
}

/// Extracts the least value: follows the left spine unconditionally to the
/// terminal's parent, splices it out, and repairs upward exactly as removal
/// does. Needs no comparator at all.
#[verifier::rlimit(100)]
pub(crate) fn del_min<T>(t: Node<T>) -> (res: (Node<T>, Option<T>))
    requires
        t.invc(),
        t.invh(),
    ensures
        t is Leaf ==> res.0 is Leaf && res.1 is None,
        t is Internal ==> t.inorder().len() > 0 && res.1 == Some(t.inorder()[0])
            && res.0.inorder() == t.inorder().drop_first(),
        res.0.invh(),
        t.colour() == Colour::Red ==> res.0.bh() == t.bh() && res.0.invc(),
        t.colour() == Colour::Black ==> res.0.invc2(),
        t is Internal && t.colour() == Colour::Black ==> res.0.bh() + 1 == t.bh(),
    decreases t,
{
    let ghost t0 = t;
    match t {
        Node::Leaf => (Node::Leaf, None),
        Node::Internal(co, l, v, r) => {
            let ghost li = l.inorder();
            let ghost ri = r.inorder();
            let ghost ti = t0.inorder();
            proof {
                assert(ti == li + seq![v] + ri);
                assert((*l).invc() && (*r).invc() && (*l).invh() && (*r).invh());
                assert((*l).bh() == (*r).bh());
                assert(t0.bh() == (*l).bh() + if co == Colour::Black {
                    1nat
                } else {
                    0nat
                });
                if co == Colour::Red {
                    assert((*l).colour() == Colour::Black && (*r).colour() == Colour::Black);
                }
            }
            let l_black_internal = !l.is_red() && !l.is_terminal();
            if l.is_terminal() {
                proof {
                    assert(li =~= Seq::<T>::empty());
                    assert(ti =~= seq![v] + ri);
                    assert(ti[0] == v);
                    assert(ti.drop_first() =~= ri);
                }
                (*r, Some(v))
            } else {
                let (l2, m) = del_min(*l);
                proof {
                    assert(li.len() > 0);
                    assert(ti[0] == li[0]);
                }
                if l_black_internal {
                    let res = bald_l(l2, v, *r);
                    proof {
                        assert(res.inorder() =~= ti.drop_first());
                    }
                    (res, m)
                } else {
                    let res = mk(Colour::Red, l2, v, *r);
                    proof {
                        assert(res.inorder() =~= ti.drop_first());
                    }
                    (res, m)
                }
            }
        },
    }
}

/// Comparator-guided search; hands back a reference to the stored value that
/// compares equal to the probe, if the subtree holds one.
pub(crate) fn find<'a, T, F: Comparator<T>>(t: &'a Node<T>, x: &T, c: &F) -> (res: Option<&'a T>)
    requires
        lawful_cmp::<T, F>(*c),
        sorted_by(*c, t.inorder()),
    ensures
        match res {
            Some(p) => seq_found(*c, t.inorder(), *x) == Some(*p),
            None => seq_found(*c, t.inorder(), *x) is None,
        },
    decreases t,
{
    match t {
        Node::Leaf => None,
        Node::Internal(_, l, v, r) => {
            let ghost li = l.inorder();
            let ghost ri = r.inorder();
            proof {
                lemma_sorted_parts(*c, li, *v, ri);
            }
            match c.cmp(x, v) {
                core::cmp::Ordering::Less => {
                    proof {
                        lemma_found_left(*c, li, *v, ri, *x);
                    }
                    find(l, x, c)
                },
                core::cmp::Ordering::Equal => {
                    proof {
                        assert forall|i: int| 0 <= i < li.len() implies #[trigger] c.spec_cmp(
                            *x,
                            li[i],
                        ) == core::cmp::Ordering::Greater by {
                            assert(c.spec_cmp(li[i], *v) == core::cmp::Ordering::Less);
                            assert(c.spec_cmp(*x, li[i]) == c.spec_cmp(*v, li[i]));
                            assert(c.spec_cmp(*v, li[i]) == crate::flip_ordering(
                                c.spec_cmp(li[i], *v),
                            ));
                        }
                        lemma_found_skip(*c, li, seq![*v] + ri, *x);
                        assert(t.inorder() =~= li + (seq![*v] + ri));
                        assert((seq![*v] + ri)[0] == *v);
                        assert(seq_found(*c, seq![*v] + ri, *x) == Some(*v));
                    }
                    Some(v)
                },
                core::cmp::Ordering::Greater => {
                    proof {
                        assert(c.spec_cmp(*v, *x) == crate::flip_ordering(c.spec_cmp(*x, *v)));
                        assert forall|i: int| 0 <= i < (li + seq![*v]).len() implies #[trigger] c.spec_cmp(
                            *x,
                            (li + seq![*v])[i],
                        ) == core::cmp::Ordering::Greater by {
                            if i < li.len() {
                                assert((li + seq![*v])[i] == li[i]);
                                assert(c.spec_cmp(li[i], *v) == core::cmp::Ordering::Less);
                                assert(c.spec_cmp(li[i], *x) == core::cmp::Ordering::Less);
                                assert(c.spec_cmp(*x, li[i]) == crate::flip_ordering(
                                    c.spec_cmp(li[i], *x),
                                ));
                            } else {
                                assert((li + seq![*v])[i] == *v);
                            }
                        }
                        lemma_found_skip(*c, li + seq![*v], ri, *x);
                        assert(t.inorder() =~= (li + seq![*v]) + ri);
                    }
                    find(r, x, c)
                },
            }
        },
    }
}

/// Eager ordered snapshot: appends references to the subtree's values, in
/// ascending order, to `out`.
pub(crate) fn ordered_insertion<'a, T>(t: &'a Node<T>, out: &mut Vec<&'a T>)
    ensures
        final(out)@.len() == old(out)@.len() + t.inorder().len(),
        forall|i: int| 0 <= i < old(out)@.len() ==> final(out)@[i] == old(out)@[i],
        forall|i: int|
            0 <= i < t.inorder().len() ==> *final(out)@[old(out)@.len() + i] == t.inorder()[i],
    decreases t,
{
    match t {
        Node::Leaf => {
        },
        Node::Internal(_, l, v, r) => {
            let ghost li = l.inorder();
            let ghost ri = r.inorder();
            let ghost n0 = out@.len() as int;
            ordered_insertion(l, out);
            out.push(v);
            ordered_insertion(r, out);
            proof {
                assert(t.inorder() == li + seq![*v] + ri);
                assert forall|i: int| 0 <= i < t.inorder().len() implies *final(out)@[n0 + i]
                    == t.inorder()[i] by {
                    if i < li.len() {
                        assert(t.inorder()[i] == li[i]);
                    } else if i == li.len() {
                        assert(t.inorder()[i] == *v);
                    } else {
                        assert(t.inorder()[i] == ri[i - li.len() - 1]);
                    }
                }
            }
        },
    }
}


} // verus!
