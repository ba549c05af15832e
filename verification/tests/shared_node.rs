use concurrent_bst::shared_node::Grown;
use concurrent_bst::shared_node::Links;
use concurrent_bst::SharedTree;
use concurrent_bst::Side;
use std::sync::Arc;

#[test]
fn empty_links_have_no_children() {
    let links: Links<u32> = Links::empty();
    assert!(links.pick(Side::Left).is_none());
    assert!(links.pick(Side::Right).is_none());
}

#[test]
fn settle_fills_a_free_slot() {
    let tree = SharedTree::new(10u32);
    let root = tree.find(10).unwrap();
    let (links, grown) = Links::empty().settle(&root, Side::Left, 12);
    let leaf = match grown {
        Grown::Leaf(leaf) => leaf,
        _ => panic!("a free slot takes the value"),
    };
    assert_eq!(*leaf.val(), 12);
    assert!(Arc::ptr_eq(&links.pick(Side::Left).unwrap(), &leaf));
    assert!(links.pick(Side::Right).is_none());
}

#[test]
fn settle_keeps_a_child_and_hands_the_value_back() {
    let tree = SharedTree::new(10u32);
    let root = tree.find(10).unwrap();
    let (links, _) = Links::empty().settle(&root, Side::Right, 4);
    let first = links.pick(Side::Right).unwrap();
    let (links, grown) = links.settle(&root, Side::Right, 6);
    match grown {
        Grown::Below(child, back) => {
            assert!(Arc::ptr_eq(&child, &first));
            assert_eq!(back, 6);
        },
        _ => panic!("a taken slot sends the value on"),
    }
    assert!(Arc::ptr_eq(&links.pick(Side::Right).unwrap(), &first));
    assert_eq!(*first.val(), 4);
    assert!(links.pick(Side::Left).is_none());
}

#[test]
fn settle_leaves_the_other_slot_alone() {
    let tree = SharedTree::new(10u32);
    let root = tree.find(10).unwrap();
    let (links, _) = Links::empty().settle(&root, Side::Right, 4);
    let right = links.pick(Side::Right).unwrap();
    let (links, grown) = links.settle(&root, Side::Left, 15);
    assert!(matches!(grown, Grown::Leaf(_)));
    assert!(Arc::ptr_eq(&links.pick(Side::Right).unwrap(), &right));
    assert_eq!(*links.pick(Side::Left).unwrap().val(), 15);
}

#[test]
fn grow_places_then_sends_on() {
    let tree = SharedTree::new(10u32);
    let root = tree.find(10).unwrap();
    let leaf = match root.grow(20) {
        Grown::Leaf(leaf) => leaf,
        _ => panic!("the left slot of a new root is free"),
    };
    assert_eq!(*leaf.val(), 20);
    match root.grow(30) {
        Grown::Below(child, back) => {
            assert!(Arc::ptr_eq(&child, &leaf));
            assert_eq!(back, 30);
        },
        _ => panic!("the left slot is taken by now"),
    }
    assert!(tree.find(30).is_none());
    assert_eq!(*tree.find(20).unwrap().val(), 20);
}
