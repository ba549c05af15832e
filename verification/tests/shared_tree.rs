use concurrent_bst::SharedTree;
use concurrent_bst::SharedNode;
use concurrent_bst::Side;
use std::cell::RefCell;
use std::sync::Arc;

fn shared_values<T: Ord + Clone>(tree: &SharedTree<T>) -> Vec<T> {
    let seen = RefCell::new(Vec::new());
    tree.walk(|val: &T| seen.borrow_mut().push(val.clone()));
    seen.into_inner()
}

fn shared_value_at(found: Option<Arc<SharedNode<usize>>>) -> Option<usize> {
    found.map(|node| *node.val())
}

#[test]
fn shared_insert_many() {
    const N: usize = 300;

    let tree = Arc::new(SharedTree::new(0));

    // add N-1 elements to the tree (0 already in tree), each through a
    // handle of its own
    for i in 1..N {
        let tree_clone = Arc::clone(&tree);
        assert!(tree_clone.add(i).is_ok());
    }

    // check that all N elements exist in tree
    for i in 0..N {
        let found = tree.find(i);
        assert_eq!(true, found.is_some());
        let node = found.unwrap();
        let val = *node.val();
        assert_eq!(val, i);
    }
}

#[test]
fn shared_new_tree_holds_its_first_value() {
    let tree = SharedTree::new(42usize);
    assert_eq!(shared_value_at(tree.find(42)), Some(42));
    assert_eq!(shared_values(&tree), vec![42]);
}

#[test]
fn shared_find_of_a_value_never_added_is_absent() {
    let tree = SharedTree::new(10usize);
    for val in [4, 15, 7, 12, 1] {
        assert!(tree.add(val).is_ok());
    }
    for missing in [0, 2, 3, 5, 6, 8, 9, 11, 13, 14, 16, 100] {
        assert!(tree.find(missing).is_none());
    }
}

#[test]
fn shared_find_twice_gives_the_same_node() {
    let tree = SharedTree::new(10usize);
    for val in [4, 15, 7] {
        assert!(tree.add(val).is_ok());
    }
    for val in [10, 4, 15, 7] {
        let first = tree.find(val).unwrap();
        let second = tree.find(val).unwrap();
        assert_eq!(*first.val(), *second.val());
        assert!(Arc::ptr_eq(&first, &second));
    }
    assert!(tree.find(5).is_none());
    assert!(tree.find(5).is_none());
}

#[test]
fn shared_add_hands_back_the_leaf_it_made() {
    let tree = SharedTree::new(10usize);
    let leaf = tree.add(4).ok().unwrap();
    assert_eq!(*leaf.val(), 4);
    let found = tree.find(4).unwrap();
    assert!(Arc::ptr_eq(&leaf, &found));
    let other = tree.add(15).ok().unwrap();
    assert_eq!(*other.val(), 15);
    assert!(!Arc::ptr_eq(&leaf, &other));
}

#[test]
fn shared_walk_runs_from_the_greatest_to_the_least() {
    let tree = SharedTree::new(5usize);
    for val in [3, 8, 1, 4, 9, 7] {
        assert!(tree.add(val).is_ok());
    }
    assert_eq!(shared_values(&tree), vec![9, 8, 7, 5, 4, 3, 1]);
}

#[test]
fn shared_walk_after_one_larger_value() {
    let tree = SharedTree::new(0usize);
    assert!(tree.add(1).is_ok());
    assert_eq!(shared_values(&tree), vec![1, 0]);
}

#[test]
fn shared_walk_visits_each_value_once() {
    let tree = SharedTree::new(50usize);
    let mut expected = vec![50];
    let mut val = 50;
    for _ in 0..200 {
        val = (val * 37 + 11) % 1009;
        if !expected.contains(&val) {
            assert!(tree.add(val).is_ok());
            expected.push(val);
        }
    }
    expected.sort();
    expected.reverse();
    assert_eq!(shared_values(&tree), expected);
}

#[test]
fn shared_equal_values_are_all_kept() {
    let tree = SharedTree::new(5usize);
    let second = tree.add(5).ok().unwrap();
    let third = tree.add(5).ok().unwrap();
    assert!(tree.add(3).is_ok());
    assert_eq!(shared_values(&tree), vec![5, 5, 5, 3]);
    // a lookup stops at the first level value on its way: the root
    let found = tree.find(5).unwrap();
    assert_eq!(*found.val(), 5);
    assert!(!Arc::ptr_eq(&found, &second));
    assert!(!Arc::ptr_eq(&found, &third));
}

#[test]
fn shared_rising_values_make_a_chain() {
    let tree = SharedTree::new(0usize);
    for val in 1..1000 {
        assert!(tree.add(val).is_ok());
    }
    let expected: Vec<usize> = (0..1000).rev().collect();
    assert_eq!(shared_values(&tree), expected);
    assert_eq!(shared_value_at(tree.find(999)), Some(999));
    assert!(tree.find(1000).is_none());
}

#[test]
fn shared_falling_values_make_a_chain() {
    let tree = SharedTree::new(1000usize);
    for val in (0..1000).rev() {
        assert!(tree.add(val).is_ok());
    }
    let expected: Vec<usize> = (0..=1000).rev().collect();
    assert_eq!(shared_values(&tree), expected);
    assert_eq!(shared_value_at(tree.find(0)), Some(0));
}

#[test]
fn shared_a_clone_is_the_same_tree() {
    let tree = SharedTree::new(10usize);
    let twin = tree.clone();
    let leaf = twin.add(3).ok().unwrap();
    let found = tree.find(3).unwrap();
    assert!(Arc::ptr_eq(&leaf, &found));
    assert!(tree.add(20).is_ok());
    assert_eq!(shared_values(&twin), vec![20, 10, 3]);
}

#[test]
fn shared_strings_are_ordered_as_strings() {
    let tree = SharedTree::new(String::from("m"));
    for val in ["c", "x", "a", "q"] {
        assert!(tree.add(String::from(val)).is_ok());
    }
    assert_eq!(shared_values(&tree), vec!["x", "q", "m", "c", "a"]);
    assert!(tree.find(String::from("q")).is_some());
    assert!(tree.find(String::from("b")).is_none());
}

#[test]
fn shared_walk_calls_back_once_for_a_single_node() {
    let tree = SharedTree::new(7i32);
    let calls = RefCell::new(0);
    tree.walk(|val: &i32| {
        assert_eq!(*val, 7);
        *calls.borrow_mut() += 1;
    });
    assert_eq!(calls.into_inner(), 1);
}

fn shared_below(node: &Arc<SharedNode<usize>>, out: &mut Vec<usize>) {
    out.push(*node.val());
    for side in [Side::Left, Side::Right] {
        if let Some(child) = node.child(side) {
            shared_below(&child, out);
        }
    }
}

fn shared_check_order(node: &Arc<SharedNode<usize>>) {
    let at = *node.val();
    if let Some(child) = node.child(Side::Left) {
        let mut held = Vec::new();
        shared_below(&child, &mut held);
        assert!(held.iter().all(|val| at <= *val));
        shared_check_order(&child);
    }
    if let Some(child) = node.child(Side::Right) {
        let mut held = Vec::new();
        shared_below(&child, &mut held);
        assert!(held.iter().all(|val| *val < at));
        shared_check_order(&child);
    }
}

#[test]
fn shared_every_node_parts_what_lies_below_it() {
    let tree = SharedTree::new(500usize);
    let mut val = 500;
    for _ in 0..300 {
        val = (val * 61 + 17) % 1000;
        assert!(tree.add(val).is_ok());
    }
    let root = tree.find(500).unwrap();
    shared_check_order(&root);
}

#[test]
fn shared_children_sit_where_the_rule_puts_them() {
    let tree = SharedTree::new(10usize);
    let root = tree.find(10).unwrap();
    assert!(root.child(Side::Left).is_none());
    assert!(root.child(Side::Right).is_none());
    let larger = tree.add(12).ok().unwrap();
    let smaller = tree.add(8).ok().unwrap();
    let level = tree.add(10).ok().unwrap();
    assert!(Arc::ptr_eq(&root.child(Side::Left).unwrap(), &larger));
    assert!(Arc::ptr_eq(&root.child(Side::Right).unwrap(), &smaller));
    // 10 goes left at the root, and right at 12
    assert!(Arc::ptr_eq(&larger.child(Side::Right).unwrap(), &level));
    assert!(larger.child(Side::Left).is_none());
    let (left, right) = root.children();
    assert!(Arc::ptr_eq(&left.unwrap(), &larger));
    assert!(Arc::ptr_eq(&right.unwrap(), &smaller));
}

#[test]
fn shared_two_values_for_one_slot_are_both_kept() {
    let tree = SharedTree::new(10usize);
    // both belong in the right slot of the root: the first takes it, the
    // second goes on shared_below the first
    let first = tree.add(5).ok().unwrap();
    let second = tree.add(7).ok().unwrap();
    let root = tree.find(10).unwrap();
    assert!(Arc::ptr_eq(&root.child(Side::Right).unwrap(), &first));
    assert!(Arc::ptr_eq(&first.child(Side::Left).unwrap(), &second));
    assert_eq!(shared_value_at(tree.find(5)), Some(5));
    assert_eq!(shared_value_at(tree.find(7)), Some(7));
    assert_eq!(shared_values(&tree), vec![10, 7, 5]);
}

#[test]
fn shared_find_below_a_free_slot_is_nothing() {
    let tree = SharedTree::new(10usize);
    assert!(tree.find_below(None, &3).is_none());
}

#[test]
fn shared_find_below_goes_on_from_the_child() {
    let tree = SharedTree::new(5usize);
    let three = tree.add(3).ok().unwrap();
    let four = tree.add(4).ok().unwrap();
    let root = tree.find(5).unwrap();
    let child = root.child(Side::Right);
    let hit = tree.find_below(child, &3).unwrap();
    assert!(Arc::ptr_eq(&hit, &three));
    assert!(!Arc::ptr_eq(&hit, &root));
    let hit = tree.find_below(root.child(Side::Right), &4).unwrap();
    assert!(Arc::ptr_eq(&hit, &four));
    assert!(tree.find_below(root.child(Side::Right), &2).is_none());
}

#[test]
fn shared_visit_hands_out_the_children_round_the_node() {
    let tree = SharedTree::new(5usize);
    for val in [3, 8, 4] {
        assert!(tree.add(val).is_ok());
    }
    let root = tree.find(5).unwrap();
    let (left, right) = root.children();
    let seen = RefCell::new(Vec::new());
    tree.visit(&root, left, right, &|val: &usize| seen.borrow_mut().push(*val));
    assert_eq!(seen.into_inner(), vec![8, 5, 4, 3]);
    // with no children handed in, the node alone is visited
    let seen = RefCell::new(Vec::new());
    tree.visit(&root, None, None, &|val: &usize| seen.borrow_mut().push(*val));
    assert_eq!(seen.into_inner(), vec![5]);
}
