//! The sorted-sequence model of the tree.
//!
//! Every container operation is specified against a strictly ascending
//! sequence of stored values: `seq_insert` says what insertion leaves behind,
//! `seq_removed` what removal leaves behind, and `seq_found` which stored
//! value a comparator-equal probe meets. The lemmas here relate those
//! functions to each other and to sortedness; the tree code proves that it
//! implements them.

use vstd::prelude::*;

use crate::Comparator;
use crate::lawful_cmp;

verus! {

/// Strictly ascending under the comparator: no two entries compare equal.
pub open spec fn sorted_by<T, F: Comparator<T>>(c: F, s: Seq<T>) -> bool {
    forall|i: int, j: int|
        0 <= i < j < s.len() ==> #[trigger] c.spec_cmp(s[i], s[j]) == core::cmp::Ordering::Less
}

/// The sequence after inserting `x` into `s`: before the first entry greater
/// than `x`, or in place of the entry equal to `x`.
pub open spec fn seq_insert<T, F: Comparator<T>>(c: F, s: Seq<T>, x: T) -> Seq<T>
    decreases s.len(),
{
    if s.len() == 0 {
        seq![x]
    } else {
        match c.spec_cmp(x, s[0]) {
            core::cmp::Ordering::Less => seq![x] + s,
            core::cmp::Ordering::Equal => seq![x] + s.drop_first(),
            core::cmp::Ordering::Greater => seq![s[0]] + seq_insert(c, s.drop_first(), x),
        }
    }
}

/// The entry of `s` that compares equal to `x`, if `s` is sorted and has one.
pub open spec fn seq_found<T, F: Comparator<T>>(c: F, s: Seq<T>, x: T) -> Option<T>
    decreases s.len(),
{
    if s.len() == 0 {
        None
    } else {
        match c.spec_cmp(x, s[0]) {
            core::cmp::Ordering::Less => None,
            core::cmp::Ordering::Equal => Some(s[0]),
            core::cmp::Ordering::Greater => seq_found(c, s.drop_first(), x),
        }
    }
}

/// The sequence after removing the entry equal to `x`, or `s` itself when,
/// `s` being sorted, it holds none.
pub open spec fn seq_removed<T, F: Comparator<T>>(c: F, s: Seq<T>, x: T) -> Seq<T>
    decreases s.len(),
{
    if s.len() == 0 {
        s
    } else {
        match c.spec_cmp(x, s[0]) {
            core::cmp::Ordering::Less => s,
            core::cmp::Ordering::Equal => s.drop_first(),
            core::cmp::Ordering::Greater => seq![s[0]] + seq_removed(c, s.drop_first(), x),
        }
    }
}

/// A sorted sequence splits around a pivot: both sides are sorted, everything
/// left of the pivot is below it, everything right of it above, and the two
/// sides are ordered across the pivot.
pub proof fn lemma_sorted_parts<T, F: Comparator<T>>(c: F, l: Seq<T>, a: T, r: Seq<T>)
    requires
        sorted_by(c, l + seq![a] + r),
    ensures
        sorted_by(c, l),
        sorted_by(c, r),
        forall|i: int| 0 <= i < l.len() ==> #[trigger] c.spec_cmp(l[i], a) == core::cmp::Ordering::Less,
        forall|i: int| 0 <= i < r.len() ==> #[trigger] c.spec_cmp(a, r[i]) == core::cmp::Ordering::Less,
{
    let s = l + seq![a] + r;
    assert forall|i: int, j: int| 0 <= i < j < l.len() implies #[trigger] c.spec_cmp(l[i], l[j])
        == core::cmp::Ordering::Less by {
        assert(s[i] == l[i]);
        assert(s[j] == l[j]);
    }
    assert forall|i: int, j: int| 0 <= i < j < r.len() implies #[trigger] c.spec_cmp(r[i], r[j])
        == core::cmp::Ordering::Less by {
        assert(s[l.len() + 1 + i] == r[i]);
        assert(s[l.len() + 1 + j] == r[j]);
    }
    assert forall|i: int| 0 <= i < l.len() implies #[trigger] c.spec_cmp(l[i], a)
        == core::cmp::Ordering::Less by {
        assert(s[i] == l[i]);
        assert(s[l.len() as int] == a);
    }
    assert forall|i: int| 0 <= i < r.len() implies #[trigger] c.spec_cmp(a, r[i])
        == core::cmp::Ordering::Less by {
        assert(s[l.len() as int] == a);
        assert(s[l.len() + 1 + i] == r[i]);
    }
}

/// Inserting a value greater than a whole prefix walks past that prefix.
pub proof fn lemma_insert_skip<T, F: Comparator<T>>(c: F, s1: Seq<T>, s2: Seq<T>, x: T)
    requires
        forall|i: int|
            0 <= i < s1.len() ==> #[trigger] c.spec_cmp(x, s1[i]) == core::cmp::Ordering::Greater,
    ensures
        seq_insert(c, s1 + s2, x) == s1 + seq_insert(c, s2, x),
    decreases s1.len(),
{
    if s1.len() == 0 {
        assert(s1 + s2 =~= s2);
        assert(s1 + seq_insert(c, s2, x) =~= seq_insert(c, s2, x));
    } else {
        let s = s1 + s2;
        assert(s[0] == s1[0]);
        assert(s.len() > 0);
        assert(s.drop_first() =~= s1.drop_first() + s2);
        lemma_insert_skip(c, s1.drop_first(), s2, x);
        assert(seq_insert(c, s, x) == seq![s1[0]] + (s1.drop_first() + seq_insert(c, s2, x)));
        assert(seq![s1[0]] + (s1.drop_first() + seq_insert(c, s2, x)) =~= s1 + seq_insert(
            c,
            s2,
            x,
        ));
    }
}

/// Looking for a value greater than a whole prefix walks past that prefix.
pub proof fn lemma_found_skip<T, F: Comparator<T>>(c: F, s1: Seq<T>, s2: Seq<T>, x: T)
    requires
        forall|i: int|
            0 <= i < s1.len() ==> #[trigger] c.spec_cmp(x, s1[i]) == core::cmp::Ordering::Greater,
    ensures
        seq_found(c, s1 + s2, x) == seq_found(c, s2, x),
    decreases s1.len(),
{
    if s1.len() == 0 {
        assert(s1 + s2 =~= s2);
    } else {
        let s = s1 + s2;
        assert(s[0] == s1[0]);
        assert(s.drop_first() =~= s1.drop_first() + s2);
        lemma_found_skip(c, s1.drop_first(), s2, x);
    }
}

/// Removing a value greater than a whole prefix walks past that prefix.
pub proof fn lemma_removed_skip<T, F: Comparator<T>>(c: F, s1: Seq<T>, s2: Seq<T>, x: T)
    requires
        forall|i: int|
            0 <= i < s1.len() ==> #[trigger] c.spec_cmp(x, s1[i]) == core::cmp::Ordering::Greater,
    ensures
        seq_removed(c, s1 + s2, x) == s1 + seq_removed(c, s2, x),
    decreases s1.len(),
{
    if s1.len() == 0 {
        assert(s1 + s2 =~= s2);
        assert(s1 + seq_removed(c, s2, x) =~= seq_removed(c, s2, x));
    } else {
        let s = s1 + s2;
        assert(s[0] == s1[0]);
        assert(s.drop_first() =~= s1.drop_first() + s2);
        lemma_removed_skip(c, s1.drop_first(), s2, x);
        assert(seq_removed(c, s, x) == seq![s1[0]] + (s1.drop_first() + seq_removed(c, s2, x)));
        assert(seq![s1[0]] + (s1.drop_first() + seq_removed(c, s2, x)) =~= s1 + seq_removed(
            c,
            s2,
            x,
        ));
    }
}

/// Inserting a value below a pivot only touches the left side.
pub proof fn lemma_insert_left<T, F: Comparator<T>>(c: F, l: Seq<T>, a: T, r: Seq<T>, x: T)
    requires
        c.spec_cmp(x, a) == core::cmp::Ordering::Less,
    ensures
        seq_insert(c, l + seq![a] + r, x) == seq_insert(c, l, x) + seq![a] + r,
    decreases l.len(),
{
    let s = l + seq![a] + r;
    if l.len() == 0 {
        assert(s[0] == a);
        assert(seq_insert(c, s, x) == seq![x] + s);
        assert(seq![x] + s =~= seq_insert(c, l, x) + seq![a] + r);
    } else {
        assert(s[0] == l[0]);
        assert(s.drop_first() =~= l.drop_first() + seq![a] + r);
        match c.spec_cmp(x, l[0]) {
            core::cmp::Ordering::Less => {
                assert(seq_insert(c, s, x) == seq![x] + s);
                assert(seq![x] + s =~= (seq![x] + l) + seq![a] + r);
            },
            core::cmp::Ordering::Equal => {
                assert(seq_insert(c, s, x) == seq![x] + s.drop_first());
                assert(seq![x] + (l.drop_first() + seq![a] + r) =~= (seq![x] + l.drop_first())
                    + seq![a] + r);
            },
            core::cmp::Ordering::Greater => {
                lemma_insert_left(c, l.drop_first(), a, r, x);
                assert(seq![l[0]] + (seq_insert(c, l.drop_first(), x) + seq![a] + r) =~= (
                seq![l[0]] + seq_insert(c, l.drop_first(), x)) + seq![a] + r);
            },
        }
    }
}

/// Looking below a pivot only searches the left side.
pub proof fn lemma_found_left<T, F: Comparator<T>>(c: F, l: Seq<T>, a: T, r: Seq<T>, x: T)
    requires
        c.spec_cmp(x, a) == core::cmp::Ordering::Less,
    ensures
        seq_found(c, l + seq![a] + r, x) == seq_found(c, l, x),
    decreases l.len(),
{
    let s = l + seq![a] + r;
    if l.len() == 0 {
        assert(s[0] == a);
    } else {
        assert(s[0] == l[0]);
        assert(s.drop_first() =~= l.drop_first() + seq![a] + r);
        match c.spec_cmp(x, l[0]) {
            core::cmp::Ordering::Less => {},
            core::cmp::Ordering::Equal => {},
            core::cmp::Ordering::Greater => {
                lemma_found_left(c, l.drop_first(), a, r, x);
            },
        }
    }
}

/// Removing below a pivot only touches the left side.
pub proof fn lemma_removed_left<T, F: Comparator<T>>(c: F, l: Seq<T>, a: T, r: Seq<T>, x: T)
    requires
        c.spec_cmp(x, a) == core::cmp::Ordering::Less,
    ensures
        seq_removed(c, l + seq![a] + r, x) == seq_removed(c, l, x) + seq![a] + r,
    decreases l.len(),
{
    let s = l + seq![a] + r;
    if l.len() == 0 {
        assert(s[0] == a);
        assert(seq_removed(c, s, x) == s);
        assert(s =~= seq_removed(c, l, x) + seq![a] + r);
    } else {
        assert(s[0] == l[0]);
        assert(s.drop_first() =~= l.drop_first() + seq![a] + r);
        match c.spec_cmp(x, l[0]) {
            core::cmp::Ordering::Less => {
                assert(seq_removed(c, s, x) == s);
                assert(s =~= l + seq![a] + r);
            },
            core::cmp::Ordering::Equal => {
                assert(seq_removed(c, s, x) == s.drop_first());
                assert(l.drop_first() + seq![a] + r =~= seq_removed(c, l, x) + seq![a] + r);
            },
            core::cmp::Ordering::Greater => {
                lemma_removed_left(c, l.drop_first(), a, r, x);
                assert(seq![l[0]] + (seq_removed(c, l.drop_first(), x) + seq![a] + r) =~= (
                seq![l[0]] + seq_removed(c, l.drop_first(), x)) + seq![a] + r);
            },
        }
    }
}

/// Insertion keeps the sequence sorted, grows it exactly when no equal entry
/// was there, and puts either `x` or the old head in front.
pub proof fn lemma_insert_sorted<T, F: Comparator<T>>(c: F, s: Seq<T>, x: T)
    requires
        lawful_cmp::<T, F>(c),
        sorted_by(c, s),
    ensures
        sorted_by(c, seq_insert(c, s, x)),
        seq_insert(c, s, x).len() == s.len() + (if seq_found(c, s, x) is Some {
            0int
        } else {
            1int
        }),
        seq_insert(c, s, x).len() > 0,
        seq_insert(c, s, x)[0] == x || (s.len() > 0 && seq_insert(c, s, x)[0] == s[0]),
    decreases s.len(),
{
    lemma_cmp_self_equal(c, x);
    if s.len() == 0 {
    } else {
        assert(sorted_by(c, s.drop_first())) by {
            assert forall|i: int, j: int| 0 <= i < j < s.drop_first().len() implies #[trigger] c.spec_cmp(
                s.drop_first()[i],
                s.drop_first()[j],
            ) == core::cmp::Ordering::Less by {
                assert(s.drop_first()[i] == s[i + 1]);
                assert(s.drop_first()[j] == s[j + 1]);
            }
        }
        match c.spec_cmp(x, s[0]) {
            core::cmp::Ordering::Less => {
                let res = seq![x] + s;
                assert forall|i: int, j: int| 0 <= i < j < res.len() implies #[trigger] c.spec_cmp(
                    res[i],
                    res[j],
                ) == core::cmp::Ordering::Less by {
                    if i == 0 {
                        if j > 1 {
                            assert(c.spec_cmp(s[0], s[j - 1]) == core::cmp::Ordering::Less);
                        }
                    }
                }
            },
            core::cmp::Ordering::Equal => {
                let res = seq![x] + s.drop_first();
                assert forall|i: int, j: int| 0 <= i < j < res.len() implies #[trigger] c.spec_cmp(
                    res[i],
                    res[j],
                ) == core::cmp::Ordering::Less by {
                    if i == 0 {
                        assert(res[j] == s[j]);
                        assert(c.spec_cmp(s[0], s[j]) == core::cmp::Ordering::Less);
                        assert(c.spec_cmp(x, s[0]) == core::cmp::Ordering::Equal);
                    } else {
                        assert(res[i] == s[i]);
                        assert(res[j] == s[j]);
                    }
                }
            },
            core::cmp::Ordering::Greater => {
                lemma_insert_sorted(c, s.drop_first(), x);
                let rec = seq_insert(c, s.drop_first(), x);
                let res = seq![s[0]] + rec;
                assert(c.spec_cmp(s[0], rec[0]) == core::cmp::Ordering::Less) by {
                    if rec[0] == x {
                        assert(c.spec_cmp(x, s[0]) == core::cmp::Ordering::Greater);
                    } else {
                        assert(rec[0] == s.drop_first()[0]);
                        assert(s.drop_first()[0] == s[1]);
                    }
                }
                assert forall|i: int, j: int| 0 <= i < j < res.len() implies #[trigger] c.spec_cmp(
                    res[i],
                    res[j],
                ) == core::cmp::Ordering::Less by {
                    if i == 0 {
                        if j > 1 {
                            assert(c.spec_cmp(rec[0], rec[j - 1]) == core::cmp::Ordering::Less);
                        }
                    } else {
                        assert(c.spec_cmp(rec[i - 1], rec[j - 1]) == core::cmp::Ordering::Less);
                    }
                }
            },
        }
    }
}

/// A value compares equal to itself under a lawful comparator.
pub proof fn lemma_cmp_self_equal<T, F: Comparator<T>>(c: F, x: T)
    requires
        lawful_cmp::<T, F>(c),
    ensures
        c.spec_cmp(x, x) == core::cmp::Ordering::Equal,
{
    assert(c.spec_cmp(x, x) == crate::flip_ordering(c.spec_cmp(x, x)));
}

/// After inserting `x`, a search for `x` finds exactly `x`.
pub proof fn lemma_found_after_insert<T, F: Comparator<T>>(c: F, s: Seq<T>, x: T)
    requires
        lawful_cmp::<T, F>(c),
        sorted_by(c, s),
    ensures
        seq_found(c, seq_insert(c, s, x), x) == Some(x),
    decreases s.len(),
{
    lemma_cmp_self_equal(c, x);
    if s.len() == 0 {
        assert(seq_insert(c, s, x) == seq![x]);
        assert(seq_insert(c, s, x)[0] == x);
    } else {
        match c.spec_cmp(x, s[0]) {
            core::cmp::Ordering::Less => {
                assert(seq_insert(c, s, x)[0] == x);
            },
            core::cmp::Ordering::Equal => {
                assert(seq_insert(c, s, x)[0] == x);
            },
            core::cmp::Ordering::Greater => {
                assert(sorted_by(c, s.drop_first())) by {
                    assert forall|i: int, j: int|
                        0 <= i < j < s.drop_first().len() implies #[trigger] c.spec_cmp(
                        s.drop_first()[i],
                        s.drop_first()[j],
                    ) == core::cmp::Ordering::Less by {
                        assert(s.drop_first()[i] == s[i + 1]);
                        assert(s.drop_first()[j] == s[j + 1]);
                    }
                }
                lemma_found_after_insert(c, s.drop_first(), x);
                let res = seq_insert(c, s, x);
                assert(res == seq![s[0]] + seq_insert(c, s.drop_first(), x));
                assert(res[0] == s[0]);
                assert(res.drop_first() =~= seq_insert(c, s.drop_first(), x));
            },
        }
    }
}

/// What removal leaves behind: nothing changes when no entry compares equal
/// to `x`; otherwise exactly the equal entry, at its index, is taken out.
pub proof fn lemma_removed_shape<T, F: Comparator<T>>(c: F, s: Seq<T>, x: T)
    requires
        lawful_cmp::<T, F>(c),
        sorted_by(c, s),
    ensures
        seq_found(c, s, x) is None ==> seq_removed(c, s, x) == s,
        seq_found(c, s, x) is Some ==> exists|k: int|
            0 <= k < s.len() && s[k] == seq_found(c, s, x).unwrap() && #[trigger] c.spec_cmp(
                x,
                s[k],
            ) == core::cmp::Ordering::Equal && seq_removed(c, s, x) == s.remove(k),
    decreases s.len(),
{
    if s.len() == 0 {
    } else {
        assert(sorted_by(c, s.drop_first())) by {
            assert forall|i: int, j: int| 0 <= i < j < s.drop_first().len() implies #[trigger] c.spec_cmp(
                s.drop_first()[i],
                s.drop_first()[j],
            ) == core::cmp::Ordering::Less by {
                assert(s.drop_first()[i] == s[i + 1]);
                assert(s.drop_first()[j] == s[j + 1]);
            }
        }
        match c.spec_cmp(x, s[0]) {
            core::cmp::Ordering::Less => {},
            core::cmp::Ordering::Equal => {
                assert(seq_removed(c, s, x) == s.drop_first());
                assert(s.drop_first() =~= s.remove(0));
                assert(0 <= 0 < s.len() && s[0] == seq_found(c, s, x).unwrap() && c.spec_cmp(x, s[0])
                    == core::cmp::Ordering::Equal && seq_removed(c, s, x) == s.remove(0));
            },
            core::cmp::Ordering::Greater => {
                lemma_removed_shape(c, s.drop_first(), x);
                if seq_found(c, s.drop_first(), x) is Some {
                    let k = choose|k: int|
                        0 <= k < s.drop_first().len() && s.drop_first()[k] == seq_found(
                            c,
                            s.drop_first(),
                            x,
                        ).unwrap() && #[trigger] c.spec_cmp(x, s.drop_first()[k])
                            == core::cmp::Ordering::Equal && seq_removed(c, s.drop_first(), x)
                            == s.drop_first().remove(k);
                    assert(s[k + 1] == s.drop_first()[k]);
                    assert(seq_removed(c, s, x) == seq![s[0]] + s.drop_first().remove(k));
                    assert(seq![s[0]] + s.drop_first().remove(k) =~= s.remove(k + 1));
                    assert(0 <= k + 1 < s.len() && s[k + 1] == seq_found(c, s, x).unwrap()
                        && c.spec_cmp(x, s[k + 1]) == core::cmp::Ordering::Equal && seq_removed(
                        c,
                        s,
                        x,
                    ) == s.remove(k + 1));
                } else {
                    assert(seq_removed(c, s, x) == seq![s[0]] + s.drop_first());
                    assert(seq![s[0]] + s.drop_first() =~= s);
                }
            },
        }
    }
}

/// Taking one entry out of a sorted sequence leaves it sorted.
pub proof fn lemma_sorted_remove_idx<T, F: Comparator<T>>(c: F, s: Seq<T>, k: int)
    requires
        sorted_by(c, s),
        0 <= k < s.len(),
    ensures
        sorted_by(c, s.remove(k)),
{
    let res = s.remove(k);
    assert forall|i: int, j: int| 0 <= i < j < res.len() implies #[trigger] c.spec_cmp(
        res[i],
        res[j],
    ) == core::cmp::Ordering::Less by {
        let i2: int = if i < k {
            i
        } else {
            i + 1
        };
        let j2: int = if j < k {
            j
        } else {
            j + 1
        };
        assert(res[i] == s[i2]);
        assert(res[j] == s[j2]);
        assert(c.spec_cmp(s[i2], s[j2]) == core::cmp::Ordering::Less);
    }
}

/// The head of a sorted sequence is its strict minimum.
pub proof fn lemma_head_is_minimum<T, F: Comparator<T>>(c: F, s: Seq<T>)
    requires
        sorted_by(c, s),
        s.len() > 0,
    ensures
        forall|i: int|
            1 <= i < s.len() ==> #[trigger] c.spec_cmp(s[0], s[i]) == core::cmp::Ordering::Less,
{
}

/// The tail of a sorted sequence is sorted.
pub proof fn lemma_sorted_drop_first<T, F: Comparator<T>>(c: F, s: Seq<T>)
    requires
        sorted_by(c, s),
        s.len() > 0,
    ensures
        sorted_by(c, s.drop_first()),
{
    assert forall|i: int, j: int| 0 <= i < j < s.drop_first().len() implies #[trigger] c.spec_cmp(
        s.drop_first()[i],
        s.drop_first()[j],
    ) == core::cmp::Ordering::Less by {
        assert(s.drop_first()[i] == s[i + 1]);
        assert(s.drop_first()[j] == s[j + 1]);
    }
}

/// A property of every entry and of the inserted value holds of every entry
/// after insertion.
pub proof fn lemma_insert_preserves<T, F: Comparator<T>>(c: F, s: Seq<T>, x: T, p: spec_fn(T) -> bool)
    requires
        forall|i: int| 0 <= i < s.len() ==> p(#[trigger] s[i]),
        p(x),
    ensures
        forall|i: int|
            0 <= i < seq_insert(c, s, x).len() ==> p(#[trigger] seq_insert(c, s, x)[i]),
    decreases s.len(),
{
    if s.len() == 0 {
    } else {
        match c.spec_cmp(x, s[0]) {
            core::cmp::Ordering::Less => {
                assert forall|i: int| 0 <= i < seq_insert(c, s, x).len() implies p(
                    #[trigger] seq_insert(c, s, x)[i],
                ) by {
                    if i > 0 {
                        assert(seq_insert(c, s, x)[i] == s[i - 1]);
                    }
                }
            },
            core::cmp::Ordering::Equal => {
                assert forall|i: int| 0 <= i < seq_insert(c, s, x).len() implies p(
                    #[trigger] seq_insert(c, s, x)[i],
                ) by {
                    if i > 0 {
                        assert(seq_insert(c, s, x)[i] == s[i]);
                    }
                }
            },
            core::cmp::Ordering::Greater => {
                assert forall|i: int| 0 <= i < s.drop_first().len() implies p(
                    #[trigger] s.drop_first()[i],
                ) by {
                    assert(s.drop_first()[i] == s[i + 1]);
                }
                lemma_insert_preserves(c, s.drop_first(), x, p);
                assert forall|i: int| 0 <= i < seq_insert(c, s, x).len() implies p(
                    #[trigger] seq_insert(c, s, x)[i],
                ) by {
                    if i > 0 {
                        assert(seq_insert(c, s, x)[i] == seq_insert(c, s.drop_first(), x)[i - 1]);
                    }
                }
            },
        }
    }
}

/// A property of every entry still holds of every entry after removal.
pub proof fn lemma_removed_preserves<T, F: Comparator<T>>(
    c: F,
    s: Seq<T>,
    x: T,
    p: spec_fn(T) -> bool,
)
    requires
        forall|i: int| 0 <= i < s.len() ==> p(#[trigger] s[i]),
    ensures
        forall|i: int|
            0 <= i < seq_removed(c, s, x).len() ==> p(#[trigger] seq_removed(c, s, x)[i]),
    decreases s.len(),
{
    if s.len() == 0 {
    } else {
        match c.spec_cmp(x, s[0]) {
            core::cmp::Ordering::Less => {},
            core::cmp::Ordering::Equal => {
                assert forall|i: int| 0 <= i < seq_removed(c, s, x).len() implies p(
                    #[trigger] seq_removed(c, s, x)[i],
                ) by {
                    assert(seq_removed(c, s, x)[i] == s[i + 1]);
                }
            },
            core::cmp::Ordering::Greater => {
                assert forall|i: int| 0 <= i < s.drop_first().len() implies p(
                    #[trigger] s.drop_first()[i],
                ) by {
                    assert(s.drop_first()[i] == s[i + 1]);
                }
                lemma_removed_preserves(c, s.drop_first(), x, p);
                assert forall|i: int| 0 <= i < seq_removed(c, s, x).len() implies p(
                    #[trigger] seq_removed(c, s, x)[i],
                ) by {
                    if i > 0 {
                        assert(seq_removed(c, s, x)[i] == seq_removed(c, s.drop_first(), x)[i - 1]);
                    }
                }
            },
        }
    }
}

/// Two probes that order identically against every value find the same entry.
pub proof fn lemma_found_congruent<T, F: Comparator<T>>(c: F, s: Seq<T>, x1: T, x2: T)
    requires
        forall|e: T| #[trigger] c.spec_cmp(x1, e) == c.spec_cmp(x2, e),
    ensures
        seq_found(c, s, x1) == seq_found(c, s, x2),
    decreases s.len(),
{
    if s.len() == 0 {
    } else {
        lemma_found_congruent(c, s.drop_first(), x1, x2);
    }
}

} // verus!
