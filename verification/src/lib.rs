//! Red-black tree containers ordered by a caller-supplied comparator.
//!
//! The core is a self-balancing binary search tree (`node`); on top of it
//! stand a sorted-sequence specification of its behaviour (`olist`) and three
//! facades: a plain tree (`rbtreecmp`), a set (`rbset`) and a map keyed by a
//! projection (`rbmapcmp`).

use vstd::prelude::*;

mod node;
mod olist;
mod rbmapcmp;
mod rbset;
mod rbtreecmp;

pub use node::Colour;
pub use node::Node;
pub use rbmapcmp::ComparatorWrapper;
pub use rbmapcmp::KeyedPair;
pub use rbmapcmp::RBMapWithCmp;
pub use olist::seq_found;
pub use olist::seq_insert;
pub use olist::seq_removed;
pub use olist::sorted_by;
pub use rbset::RBSet;
pub use rbtreecmp::RBTreeWithCmp;

verus! {

/// Turns an ordering around: what held of `(a, b)` then holds of `(b, a)`.
pub open spec fn flip_ordering(o: core::cmp::Ordering) -> core::cmp::Ordering {
    match o {
        core::cmp::Ordering::Less => core::cmp::Ordering::Greater,
        core::cmp::Ordering::Equal => core::cmp::Ordering::Equal,
        core::cmp::Ordering::Greater => core::cmp::Ordering::Less,
    }
}

/// A total preorder: comparing in the other direction flips the answer,
/// strict ordering is transitive, and values that compare equal order the
/// same against every third value.
pub open spec fn lawful_cmp<T, F: Comparator<T>>(c: F) -> bool {
    &&& forall|a: T, b: T|
        #![trigger c.spec_cmp(a, b)]
        c.spec_cmp(a, b) == flip_ordering(c.spec_cmp(b, a))
    &&& forall|a: T, b: T, x: T|
        #![trigger c.spec_cmp(a, b), c.spec_cmp(b, x)]
        (c.spec_cmp(a, b) == core::cmp::Ordering::Less && c.spec_cmp(b, x)
            == core::cmp::Ordering::Less ==> c.spec_cmp(a, x) == core::cmp::Ordering::Less)
    &&& forall|a: T, b: T, x: T|
        #![trigger c.spec_cmp(a, b), c.spec_cmp(b, x)]
        (c.spec_cmp(a, b) == core::cmp::Ordering::Equal ==> c.spec_cmp(a, x) == c.spec_cmp(b, x))
    &&& forall|a: T, b: T, x: T|
        #![trigger c.spec_cmp(a, b), c.spec_cmp(x, a)]
        (c.spec_cmp(a, b) == core::cmp::Ordering::Equal ==> c.spec_cmp(x, a) == c.spec_cmp(x, b))
}

/// A pluggable total-order function over the stored type. Every core
/// operation is parameterized by a comparator value instead of assuming a
/// fixed natural order.
pub trait Comparator<T>: Sized {
    /// The mathematical ordering this comparator decides.
    spec fn spec_cmp(&self, a: T, b: T) -> core::cmp::Ordering;

    /// The ordering is a lawful total preorder; every implementation proves
    /// it: comparing the other way flips the answer, strict order is
    /// transitive, and equal values order alike against any third value.
    proof fn lemma_total_preorder(&self)
        ensures
            forall|a: T, b: T|
                #![trigger self.spec_cmp(a, b)]
                self.spec_cmp(a, b) == flip_ordering(self.spec_cmp(b, a)),
            forall|a: T, b: T, x: T|
                #![trigger self.spec_cmp(a, b), self.spec_cmp(b, x)]
                (self.spec_cmp(a, b) == core::cmp::Ordering::Less && self.spec_cmp(b, x)
                    == core::cmp::Ordering::Less ==> self.spec_cmp(a, x)
                    == core::cmp::Ordering::Less),
            forall|a: T, b: T, x: T|
                #![trigger self.spec_cmp(a, b), self.spec_cmp(b, x)]
                (self.spec_cmp(a, b) == core::cmp::Ordering::Equal ==> self.spec_cmp(a, x)
                    == self.spec_cmp(b, x)),
            forall|a: T, b: T, x: T|
                #![trigger self.spec_cmp(a, b), self.spec_cmp(x, a)]
                (self.spec_cmp(a, b) == core::cmp::Ordering::Equal ==> self.spec_cmp(x, a)
                    == self.spec_cmp(x, b)),
    ;

    /// Decides the ordering of two values; pure, so the answer is exactly
    /// `spec_cmp`.
    fn cmp(&self, a: &T, b: &T) -> (r: core::cmp::Ordering)
        ensures
            r == self.spec_cmp(*a, *b),
    ;
}

/// The trait obligation, gathered into the one fact the proofs pass around.
pub proof fn lemma_lawful<T, F: Comparator<T>>(c: &F)
    ensures
        lawful_cmp::<T, F>(*c),
{
    c.lemma_total_preorder();
}

/// A comparator for types whose natural order the tests use.
pub struct TestComparator;

impl Comparator<i32> for TestComparator {
    open spec fn spec_cmp(&self, a: i32, b: i32) -> core::cmp::Ordering {
        if a < b {
            core::cmp::Ordering::Less
        } else if a == b {
            core::cmp::Ordering::Equal
        } else {
            core::cmp::Ordering::Greater
        }
    }

    proof fn lemma_total_preorder(&self) {
    }

    fn cmp(&self, a: &i32, b: &i32) -> (r: core::cmp::Ordering) {
        if *a < *b {
            core::cmp::Ordering::Less
        } else if *a == *b {
            core::cmp::Ordering::Equal
        } else {
            core::cmp::Ordering::Greater
        }
    }
}

impl Comparator<u64> for TestComparator {
    open spec fn spec_cmp(&self, a: u64, b: u64) -> core::cmp::Ordering {
        if a < b {
            core::cmp::Ordering::Less
        } else if a == b {
            core::cmp::Ordering::Equal
        } else {
            core::cmp::Ordering::Greater
        }
    }

    proof fn lemma_total_preorder(&self) {
    }

    fn cmp(&self, a: &u64, b: &u64) -> (r: core::cmp::Ordering) {
        if *a < *b {
            core::cmp::Ordering::Less
        } else if *a == *b {
            core::cmp::Ordering::Equal
        } else {
            core::cmp::Ordering::Greater
        }
    }
}

} // verus!
