use concurrent_bst::BinarySearchTree;
use concurrent_bst::Node;
use std::cell::RefCell;

fn values<T: Ord + Clone>(tree: &BinarySearchTree<T>) -> Vec<T> {
    let seen = RefCell::new(Vec::new());
    tree.walk(|val: &T| seen.borrow_mut().push(val.clone()));
    seen.into_inner()
}

fn val_of(found: Option<&Node<usize>>) -> Option<usize> {
    found.map(|node| node.val)
}

fn is_leaf<T: Ord>(node: &Node<T>) -> bool {
    node.left.is_none() && node.right.is_none()
}

#[test]
fn insert_many() {
    const N: usize = 300;

    let mut tree = BinarySearchTree::new(0);

    // add N-1 elements to the tree (0 already in tree)
    for i in 1..N {
        tree.add(i);
    }

    // check that all N elements exist in tree
    for i in 0..N {
        let found = tree.find(i);
        assert_eq!(true, found.is_some());
        let node = found.unwrap();
        let val = node.val;
        assert_eq!(val, i);
    }
}

#[test]
fn new_tree_is_one_node() {
    let tree = BinarySearchTree::new(42usize);
    let root = tree.find(42).unwrap();
    assert_eq!(root.val, 42);
    assert!(is_leaf(root));
    assert_eq!(values(&tree), vec![42]);
}

#[test]
fn added_values_are_found_where_the_rule_puts_them() {
    let mut tree = BinarySearchTree::new(5usize);
    tree.add(3);
    tree.add(8);
    tree.add(4);
    let root = tree.find(5).unwrap();
    // what is not under 5 lies left, what is under it lies right
    assert_eq!(root.left.as_ref().unwrap().val, 8);
    let three = root.right.as_ref().unwrap();
    assert_eq!(three.val, 3);
    // 4 is not under 3: it is the left child of the node holding 3
    assert_eq!(three.left.as_ref().unwrap().val, 4);
    assert!(three.right.is_none());
    assert!(is_leaf(three.left.as_ref().unwrap()));
    let four = tree.find(4).unwrap();
    assert_eq!(four.val, 4);
    assert!(std::ptr::eq(four, &**three.left.as_ref().unwrap()));
    assert_eq!(val_of(tree.find(3)), Some(3));
    assert_eq!(val_of(tree.find(8)), Some(8));
    assert_eq!(val_of(tree.find(5)), Some(5));
}

#[test]
fn a_value_never_added_is_absent() {
    let mut tree = BinarySearchTree::new(0usize);
    assert!(tree.find(1).is_none());
    tree.add(2);
    assert!(tree.find(1).is_none());
    for val in [10, 4, 15, 7, 12] {
        tree.add(val);
    }
    for missing in [1, 3, 5, 6, 8, 9, 11, 13, 14, 16, 100] {
        assert!(tree.find(missing).is_none());
    }
}

#[test]
fn find_twice_gives_the_same_node() {
    let mut tree = BinarySearchTree::new(10usize);
    for val in [4, 15, 7] {
        tree.add(val);
    }
    for val in [10, 4, 15, 7] {
        let first = tree.find(val).unwrap();
        let second = tree.find(val).unwrap();
        assert_eq!(first.val, second.val);
        assert!(std::ptr::eq(first, second));
    }
    assert!(tree.find(5).is_none());
    assert!(tree.find(5).is_none());
}

#[test]
fn walk_runs_from_the_greatest_to_the_least() {
    let mut tree = BinarySearchTree::new(5usize);
    for val in [3, 8, 1, 4, 9, 7] {
        tree.add(val);
    }
    assert_eq!(values(&tree), vec![9, 8, 7, 5, 4, 3, 1]);
}

#[test]
fn walk_after_one_larger_value() {
    let mut tree = BinarySearchTree::new(0usize);
    tree.add(1);
    assert_eq!(values(&tree), vec![1, 0]);
}

#[test]
fn walk_calls_back_once_for_each_node() {
    let tree = BinarySearchTree::new(7i32);
    let calls = RefCell::new(0);
    tree.walk(|val: &i32| {
        assert_eq!(*val, 7);
        *calls.borrow_mut() += 1;
    });
    assert_eq!(calls.into_inner(), 1);

    let mut tree = BinarySearchTree::new(5usize);
    tree.add(5);
    assert_eq!(values(&tree), vec![5, 5]);
    tree.add(3);
    tree.add(4);
    assert_eq!(values(&tree).len(), 4);
}

#[test]
fn a_level_value_goes_left_and_the_root_is_still_found() {
    let mut tree = BinarySearchTree::new(5usize);
    tree.add(5);
    let root = tree.find(5).unwrap();
    assert!(root.right.is_none());
    let twin = root.left.as_ref().unwrap();
    assert_eq!(twin.val, 5);
    assert!(is_leaf(twin));
    // the lookup stops at the first level value on its way: the root
    assert!(!std::ptr::eq(root, &**twin));
    assert_eq!(values(&tree), vec![5, 5]);
}

#[test]
fn two_values_for_one_slot_are_both_kept() {
    let mut tree = BinarySearchTree::new(5usize);
    // both belong in the right slot of the root: the first takes it, the
    // second goes on below the first
    tree.add(3);
    tree.add(4);
    assert_eq!(val_of(tree.find(3)), Some(3));
    assert_eq!(val_of(tree.find(4)), Some(4));
    assert_eq!(val_of(tree.find(5)), Some(5));
    assert_eq!(values(&tree), vec![5, 4, 3]);
}

#[test]
fn the_order_of_adding_does_not_change_what_is_held() {
    let mut one = BinarySearchTree::new(10usize);
    one.add(3);
    one.add(17);
    let mut other = BinarySearchTree::new(10usize);
    other.add(17);
    other.add(3);
    assert_eq!(values(&one), values(&other));
    assert_eq!(values(&one), vec![17, 10, 3]);
}

#[test]
fn walk_visits_each_value_once() {
    let mut tree = BinarySearchTree::new(50usize);
    let mut expected = vec![50];
    let mut val = 50;
    for _ in 0..200 {
        val = (val * 37 + 11) % 1009;
        tree.add(val);
        expected.push(val);
    }
    expected.sort();
    expected.reverse();
    assert_eq!(values(&tree), expected);
}

#[test]
fn rising_and_falling_values_make_chains() {
    let mut tree = BinarySearchTree::new(0usize);
    for val in 1..1000 {
        tree.add(val);
    }
    let expected: Vec<usize> = (0..1000).rev().collect();
    assert_eq!(values(&tree), expected);
    assert_eq!(val_of(tree.find(999)), Some(999));
    assert!(tree.find(1000).is_none());

    let mut tree = BinarySearchTree::new(1000usize);
    for val in (0..1000).rev() {
        tree.add(val);
    }
    let expected: Vec<usize> = (0..=1000).rev().collect();
    assert_eq!(values(&tree), expected);
    assert_eq!(val_of(tree.find(0)), Some(0));
}

#[test]
fn strings_are_ordered_as_strings() {
    let mut tree = BinarySearchTree::new(String::from("m"));
    for val in ["c", "x", "a", "q"] {
        tree.add(String::from(val));
    }
    assert_eq!(values(&tree), vec!["x", "q", "m", "c", "a"]);
    assert!(tree.find(String::from("q")).is_some());
    assert!(tree.find(String::from("b")).is_none());
}
