//! The tree for one owner: a root node and what hangs below it, added to
//! through an exclusive reference.
//!
//! Every operation is pinned to the spec functions of `Node`: an addition
//! gives `with`, a lookup gives `spot`, a walk gives `in_order`. For a tree
//! that many threads add to at once, see `SharedTree`, which descends by
//! the same rules.

use crate::node::Node;
use crate::order::descending;
use crate::order::level;
use crate::order::route;
use crate::order::seek;
use crate::order::Side;
use vstd::laws_cmp::obeys_cmp;
use vstd::prelude::*;

verus! {

/// A binary search tree that owns its nodes. It is made with one value and
/// never loses a node.
pub struct BinarySearchTree<T: Ord> {
    root: Node<T>,
}

/// A tree is seen as its root node, with all that hangs below it.
impl<T: Ord> View for BinarySearchTree<T> {
    type V = Node<T>;

    closed spec fn view(&self) -> Node<T> {
        self.root
    }
}

impl<T: Ord> Node<T> {
    /// A node that holds `val` and has both slots free.
    pub fn new(val: T) -> (node: Node<T>)
        ensures
            node == Node::lone(val),
    {
        Node { val, left: None, right: None }
    }
}

impl<T: Ord> BinarySearchTree<T> {
    /// The values are totally ordered, and the tree is ordered by them.
    pub open spec fn wf(&self) -> bool {
        &&& obeys_cmp::<T>()
        &&& self@.ordered()
    }

    /// A tree of one node, which holds `val`.
    pub fn new(val: T) -> (tree: BinarySearchTree<T>)
        requires
            obeys_cmp::<T>(),
        ensures
            tree.wf(),
            tree@ == Node::lone(val),
    {
        BinarySearchTree { root: Node::new(val) }
    }

    /// Adds `val` as a new leaf. At each node from the root down the value
    /// goes left where the node's value is at most `val` and right
    /// otherwise, until a free slot takes it. Every node that was there
    /// stays where it was, with the value it had.
    pub fn add(&mut self, val: T)
        requires
            old(self).wf(),
        ensures
            final(self).wf(),
            final(self)@ == old(self)@.with(val),
            final(self)@.values() == old(self)@.values().insert(val),
            final(self)@.spot(val) is Some,
            forall|other: T|
                old(self)@.spot(other) is Some ==> #[trigger] final(self)@.spot(other) is Some,
    {
        proof {
            self.root.lemma_with_ordered(val);
            self.root.lemma_with_values(val);
            assert forall|other: T| self.root.spot(other) is Some implies #[trigger] self.root.with(
                val,
            ).spot(other) is Some by {
                self.root.lemma_with_spot(val, other);
            }
            self.root.lemma_with_spot(val, val);
        }
        Self::add_r(&mut self.root, val);
    }

    fn add_r(node: &mut Node<T>, val: T)
        requires
            obeys_cmp::<T>(),
        ensures
            *final(node) == old(node).with(val),
        decreases *old(node),
    {
        match route(&node.val, &val) {
            Side::Left => {
                match node.left.take() {
                    Some(mut child) => {
                        Self::add_r(&mut *child, val);
                        node.left = Some(child);
                    },
                    None => {
                        node.left = Some(Box::new(Node::new(val)));
                    },
                }
            },
            Side::Right => {
                match node.right.take() {
                    Some(mut child) => {
                        Self::add_r(&mut *child, val);
                        node.right = Some(child);
                    },
                    None => {
                        node.right = Some(Box::new(Node::new(val)));
                    },
                }
            },
        }
    }

    /// Looks for a node whose value is level with `val`, from the root
    /// down: left where the node's value is under `val`, right where `val`
    /// is under the node's value. The first such node on that way is handed
    /// back; there is one exactly when the tree holds a value level with
    /// `val`.
    pub fn find(&self, val: T) -> (found: Option<&Node<T>>)
        requires
            self.wf(),
        ensures
            match found {
                Some(hit) => self@.spot(val) == Some(*hit) && level(hit.val, val) && self@.holds(
                    hit.val,
                ),
                None => self@.spot(val) is None,
            },
            found is Some <==> exists|held: T| self@.holds(held) && level(held, val),
    {
        proof {
            self.root.lemma_spot_iff_held(val);
            self.root.lemma_spot_level(val);
        }
        Self::find_r(&self.root, &val)
    }

    fn find_r<'a>(node: &'a Node<T>, val: &T) -> (found: Option<&'a Node<T>>)
        requires
            obeys_cmp::<T>(),
        ensures
            match found {
                Some(hit) => node.spot(*val) == Some(*hit),
                None => node.spot(*val) is None,
            },
        decreases node,
    {
        match seek(&node.val, val) {
            None => Some(node),
            Some(Side::Left) => match &node.left {
                Some(child) => Self::find_r(child, val),
                None => None,
            },
            Some(Side::Right) => match &node.right {
                Some(child) => Self::find_r(child, val),
                None => None,
            },
        }
    }

    /// Visits every node and hands each value to `callback`, once for each
    /// node: first the left subtree of a node, then its own value, then its
    /// right subtree. The values handed out are returned as a ghost
    /// sequence, in the order of the calls. Since values that are not under
    /// a node's value lie to its left, that order is descending.
    pub fn walk(&self, callback: impl Fn(&T)) -> (seen: Ghost<Seq<T>>)
        requires
            self.wf(),
            forall|val: &T| #[trigger] callback.requires((val,)),
        ensures
            seen@ == self@.in_order(),
            descending(seen@),
            forall|i: int|
                0 <= i < seen@.len() ==> callback.ensures((&#[trigger] seen@[i],), ()),
    {
        proof {
            self.root.lemma_in_order_descending();
        }
        Self::walk_in_order(&self.root, &callback)
    }

    fn walk_in_order(node: &Node<T>, callback: &impl Fn(&T)) -> (seen: Ghost<Seq<T>>)
        requires
            forall|val: &T| #[trigger] callback.requires((val,)),
        ensures
            seen@ == node.in_order(),
            forall|i: int|
                0 <= i < seen@.len() ==> callback.ensures((&#[trigger] seen@[i],), ()),
        decreases node,
    {
        let ghost mut high: Seq<T> = Seq::empty();
        let ghost mut low: Seq<T> = Seq::empty();
        if let Some(child) = &node.left {
            let part = Self::walk_in_order(child, callback);
            proof {
                high = part@;
            }
        }
        callback(&node.val);
        if let Some(child) = &node.right {
            let part = Self::walk_in_order(child, callback);
            proof {
                low = part@;
            }
        }
        proof {
            node.lemma_in_order();
        }
        Ghost(high.push(node.val) + low)
    }
}

} // verus!
