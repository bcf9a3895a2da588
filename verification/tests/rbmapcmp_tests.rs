use rb_tree::{RBMapWithCmp, TestComparator};

fn map_debug_string(t: &RBMapWithCmp<i32, i32, TestComparator>) -> String {
    format!("{:?}", t.ordered())
}

#[test]
fn rbmapcmp_tests_test_print() {
    let mut t = RBMapWithCmp::new(TestComparator);
    t.insert(2, 2);
    t.insert(3, 3);
    t.insert(1, 1);
    t.insert(4, 4);
    assert_eq!(map_debug_string(&t), "[(1, 1), (2, 2), (3, 3), (4, 4)]");
    assert_eq!(t.len(), 4);
}

#[test]
fn rbmapcmp_tests_test_iter() {
    let mut t = RBMapWithCmp::new(TestComparator);
    t.insert(2, 2);
    t.insert(3, 3);
    t.insert(1, 1);
    t.insert(4, 4);
    let mut count = 0;
    let mut pairs = t.iter();
    while let Some((k, _v)) = pairs.next() {
        count += 1;
        assert_eq!(count, *k);
    }
    let mut count = 0;
    let mut drain = t.into_iter();
    while let Some((k, _v)) = drain.next() {
        count += 1;
        assert_eq!(count, k);
    }
}

#[test]
fn test_rev() {
    let mut t = RBMapWithCmp::new(TestComparator);
    t.insert(2, 2);
    t.insert(3, 3);
    t.insert(1, 1);
    t.insert(4, 4);
    let mut count = 0;
    let mut pairs = t.iter();
    while let Some((k, _v)) = pairs.next() {
        count += 1;
        assert_eq!(count, *k);
    }

    for (&k, _v) in t.ordered().iter().rev() {
        assert_eq!(count, k);
        count -= 1;
    }
}
