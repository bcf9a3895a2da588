use rb_tree::{Node, RBMapWithCmp, RBSet, RBTreeWithCmp, TestComparator};

/// Walks a subtree checking the two red-black invariants: no red node has a
/// red child, and every path to a terminal crosses the same number of black
/// nodes. Returns the black-height.
fn check_rb(n: &Node<u64>, parent_red: bool) -> usize {
    match n.value() {
        None => 0,
        Some(_) => {
            let red = n.is_red();
            if parent_red {
                assert!(!red, "red node with red child");
            }
            let lh = check_rb(n.left().unwrap(), red);
            let rh = check_rb(n.right().unwrap(), red);
            assert_eq!(lh, rh, "black-height differs between subtrees");
            lh + if red { 0 } else { 1 }
        }
    }
}

/// Checks balance, strict ascending order, and count accuracy of a tree.
fn check_valid(t: &RBTreeWithCmp<u64, TestComparator>) {
    assert!(!t.root().is_red(), "root must be black");
    check_rb(t.root(), false);
    let order = t.ordered();
    assert_eq!(order.len(), t.len(), "cached count differs from node count");
    for w in order.windows(2) {
        assert!(*w[0] < *w[1], "ordered output not strictly ascending");
    }
}

#[test]
fn empty_tree_reports_nothing() {
    let mut t: RBTreeWithCmp<u64, TestComparator> = RBTreeWithCmp::new(TestComparator);
    assert_eq!(t.len(), 0);
    assert!(t.is_empty());
    assert!(t.ordered().is_empty());
    let mut it = t.iter();
    assert!(it.next().is_none());
    assert_eq!(t.pop(), None);
    check_valid(&t);
}

#[test]
fn insert_then_get_round_trip() {
    let mut t: RBTreeWithCmp<u64, TestComparator> = RBTreeWithCmp::new(TestComparator);
    assert!(t.insert(5));
    assert_eq!(t.get(&5), Some(&5));
    assert_eq!(t.replace(5), Some(5));
    assert_eq!(t.len(), 1);
    assert!(!t.insert(5));
    assert_eq!(t.len(), 1);
}

#[test]
fn remove_absent_leaves_tree_unchanged() {
    let mut t: RBTreeWithCmp<u64, TestComparator> = RBTreeWithCmp::new(TestComparator);
    for v in [8u64, 3, 10, 1, 6, 14, 4, 7, 13] {
        t.insert(v);
    }
    let before: Vec<u64> = t.ordered().into_iter().copied().collect();
    assert_eq!(t.take(&99), None);
    assert!(!t.remove(&0));
    assert_eq!(t.len(), before.len());
    let after: Vec<u64> = t.ordered().into_iter().copied().collect();
    assert_eq!(before, after);
    check_valid(&t);
}

#[test]
fn pop_ascending_and_final_absent() {
    let mut t: RBTreeWithCmp<u64, TestComparator> = RBTreeWithCmp::new(TestComparator);
    for v in [4u64, 2, 3, 1] {
        t.insert(v);
    }
    assert_eq!(t.pop(), Some(1));
    assert_eq!(t.pop(), Some(2));
    assert_eq!(t.pop(), Some(3));
    assert_eq!(t.pop(), Some(4));
    assert_eq!(t.pop(), None);
    assert!(t.is_empty());
}

#[test]
fn balance_holds_after_each_operation() {
    let mut t: RBTreeWithCmp<u64, TestComparator> = RBTreeWithCmp::new(TestComparator);
    for v in [50u64, 25, 75, 12, 37, 62, 87, 6, 18, 31, 43, 56, 68, 81, 93] {
        t.insert(v);
        check_valid(&t);
    }
    for v in [25u64, 87, 50, 6, 93, 37, 12] {
        assert!(t.remove(&v));
        check_valid(&t);
    }
    assert_eq!(t.len(), 8);
}

#[test]
fn take_returns_stored_value() {
    let mut t: RBTreeWithCmp<u64, TestComparator> = RBTreeWithCmp::new(TestComparator);
    t.insert(4);
    t.insert(2);
    assert_eq!(t.take(&2), Some(2));
    assert_eq!(t.len(), 1);
    assert_eq!(t.take(&2), None);
}

#[test]
fn tree_into_iter_drains_ascending() {
    let mut t: RBTreeWithCmp<u64, TestComparator> = RBTreeWithCmp::new(TestComparator);
    for v in [9u64, 1, 8, 2, 7, 3] {
        t.insert(v);
    }
    let mut drain = t.into_iter();
    let mut seen = Vec::new();
    while let Some(v) = drain.next() {
        seen.push(v);
    }
    assert_eq!(seen, vec![1, 2, 3, 7, 8, 9]);
}

#[test]
fn lazy_cursor_visits_in_order() {
    let mut t: RBTreeWithCmp<u64, TestComparator> = RBTreeWithCmp::new(TestComparator);
    for v in [5u64, 3, 8, 1, 4, 7, 9] {
        t.insert(v);
    }
    let mut it = t.iter();
    let mut seen = Vec::new();
    while let Some(v) = it.next() {
        seen.push(*v);
    }
    assert_eq!(seen, vec![1, 3, 4, 5, 7, 8, 9]);
}

#[test]
fn set_basic_operations() {
    let mut s = RBSet::new(TestComparator {});
    assert!(s.is_empty());
    assert_eq!(s.insert(3), None);
    assert_eq!(s.insert(3), Some(3));
    assert_eq!(s.len(), 1);
    assert_eq!(s.remove(&3), Some(3));
    assert_eq!(s.remove(&3), None);
    assert!(s.is_empty());
    s.insert(2);
    s.insert(1);
    assert_eq!(s.pop(), Some(1));
    assert_eq!(s.pop(), Some(2));
    assert_eq!(s.pop(), None);
}

#[test]
fn set_into_iter_drains_ascending() {
    let mut s = RBSet::new(TestComparator {});
    for v in [6, 2, 9, 4] {
        s.insert(v);
    }
    let mut drain = s.into_iter();
    let mut seen = Vec::new();
    while let Some(v) = drain.next() {
        seen.push(v);
    }
    assert_eq!(seen, vec![2, 4, 6, 9]);
}

#[test]
fn map_basic_operations() {
    let mut m = RBMapWithCmp::new(TestComparator);
    assert!(m.is_empty());
    assert!(!m.contains_key(1));
    assert_eq!(m.get(1), None);
    assert_eq!(m.insert(1, 10), None);
    assert!(m.contains_key(1));
    assert_eq!(m.get(1), Some(&10));
    assert_eq!(m.get_pair(1), Some((&1, &10)));
    assert_eq!(m.insert(1, 11), Some((1, 10)));
    assert_eq!(m.len(), 1);
    assert_eq!(m.get(1), Some(&11));
    assert_eq!(m.remove(2), None);
    assert_eq!(m.remove(1), Some(11));
    assert!(m.is_empty());
}

#[test]
fn map_into_iter_len_shrinks() {
    let mut m = RBMapWithCmp::new(TestComparator);
    for k in 1..=5 {
        m.insert(k, k * k);
    }
    let mut drain = m.into_iter();
    assert_eq!(drain.len(), 5);
    assert_eq!(drain.next(), Some((1, 1)));
    assert_eq!(drain.len(), 4);
    assert_eq!(drain.next(), Some((2, 4)));
    assert_eq!(drain.next(), Some((3, 9)));
    assert_eq!(drain.next(), Some((4, 16)));
    assert_eq!(drain.next(), Some((5, 25)));
    assert_eq!(drain.next(), None);
}

#[test]
fn stress_random_insert_remove() {
    let mut t: RBTreeWithCmp<u64, TestComparator> = RBTreeWithCmp::new(TestComparator);
    let mut x: u64 = 0x2545F4914F6CDD1D;
    let mut values: Vec<u64> = Vec::new();
    for step in 0..2000u64 {
        x = x.wrapping_mul(6364136223846793005).wrapping_add(1442695040888963407);
        let v = x >> 16;
        if t.insert(v) {
            values.push(v);
        }
        if step % 97 == 0 {
            check_valid(&t);
        }
    }
    assert_eq!(t.len(), values.len());
    check_valid(&t);
    let mut step: u64 = 0;
    while !values.is_empty() {
        x = x.wrapping_mul(6364136223846793005).wrapping_add(1442695040888963407);
        let idx = (x % values.len() as u64) as usize;
        let v = values.swap_remove(idx);
        assert!(t.remove(&v));
        if step % 97 == 0 {
            check_valid(&t);
        }
        step += 1;
    }
    assert!(t.is_empty());
    assert_eq!(t.len(), 0);
    check_valid(&t);
}
