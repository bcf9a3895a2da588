use rb_tree::{Node, RBSet, TestComparator};

fn write_to_level(node: &Node<i32>, from_str: String, level: usize, levels: &mut Vec<String>) {
    if levels.len() <= level {
        levels.push(String::new());
    }
    match node.value() {
        Some(v) => {
            let tag = if node.is_red() { "R" } else { "B" };
            let entry = format!("{}{}:{:?}", from_str, tag, v);
            if levels[level].is_empty() {
                levels[level] = entry;
            } else {
                levels[level] = format!("{} {}", levels[level], entry);
            }
            let below = format!("{:?}->", v);
            write_to_level(node.left().unwrap(), below.clone(), level + 1, levels);
            write_to_level(node.right().unwrap(), below, level + 1, levels);
        }
        None => {
            let entry = format!("{}___", from_str);
            if levels[level].is_empty() {
                levels[level] = entry;
            } else {
                levels[level] = format!("{} {}", levels[level], entry);
            }
        }
    }
}

fn set_debug_string(t: &RBSet<i32, TestComparator>) -> String {
    let mut levels = Vec::new();
    write_to_level(t.root(), "".to_string(), 0, &mut levels);
    levels.join("\n")
}

fn set_display_string(t: &RBSet<i32, TestComparator>) -> String {
    format!("{:?}", t.ordered())
}

#[test]
fn rbset_test_test_print() {
    let mut t = RBSet::new(TestComparator {});
    t.insert(2);
    t.insert(3);
    t.insert(1);
    t.insert(4);
    assert_eq!(set_display_string(&t), "[1, 2, 3, 4]");
    assert_eq!(t.len(), 4);
    assert_eq!(
        set_debug_string(&t),
        "B:2\n2->B:1 2->B:3\n1->___ 1->___ 3->___ 3->R:4\n4->___ 4->___"
    );
}

#[test]
fn rbset_test_test_iter() {
    let mut t = RBSet::new(TestComparator {});
    t.insert(2);
    t.insert(3);
    t.insert(1);
    t.insert(4);
    let mut count = 0;
    let mut it = t.iter();
    while let Some(i) = it.next() {
        count += 1;
        assert_eq!(count, *i);
    }
}
