//! The shared tree: a root that many handles point to, and the descents
//! that start there.
//!
//! Every operation takes the tree by shared reference, so any number of
//! threads may work on one tree at a time. A descent holds the lock of one
//! node at a time, and only while it reads or fills a slot of that node.
//! What a descent finds in a slot depends on what other threads have done
//! by then; the contracts say what holds whichever way that went, and the
//! functions that go on from what was read say what they do with each
//! value of it. What the tree holds as a whole is a value only where one
//! owner has it: see `BinarySearchTree`.

use crate::shared_node::share;
use crate::shared_node::Grown;
use crate::shared_node::SharedNode;
use crate::order::descending;
use crate::order::parted;
use crate::order::Side;
use crate::order::level;
use crate::order::seek;
use crate::order::side_of;
use crate::place::follows;
use crate::place::leads;
use crate::place::lemma_parts;
use crate::place::lemma_visit;
use crate::place::lemma_within_chain;
use crate::place::lemma_within_child;
use crate::place::lemma_within_self;
use crate::place::Site;
use std::sync::Arc;
use vstd::laws_cmp::obeys_cmp;
use vstd::prelude::*;

verus! {

/// A binary search tree that many threads can add to and read at once.
/// It is made with one value and never loses a node.
pub struct SharedTree<T: Ord> {
    root: Arc<SharedNode<T>>,
}

/// Why a value was not added: the slot for it lies under a node that is as
/// deep as a node can be.
pub struct TooDeep<T: Ord> {
    /// The value, handed back.
    pub val: T,
    /// The node under which the value belongs.
    pub at: Arc<SharedNode<T>>,
}

/// What a tree holds for good, whatever the threads that share it do, is
/// the value it was made with: a tree is seen as that value.
impl<T: Ord> View for SharedTree<T> {
    type V = T;

    closed spec fn view(&self) -> T {
        self.root@.val
    }
}

impl<T: Ord> Clone for SharedTree<T> {
    /// A second handle to the same tree: what is added through one is
    /// found through the other.
    fn clone(&self) -> (twin: Self)
        ensures
            twin == *self,
    {
        proof {
            use_type_invariant(self);
        }
        SharedTree { root: share(&self.root) }
    }
}

impl<T: Ord> SharedTree<T> {
    #[verifier::type_invariant]
    spec fn wf(&self) -> bool {
        &&& obeys_cmp::<T>()
        &&& self.root@.trail.len() == 0
    }

    /// The root: the node that was made with the tree.
    pub closed spec fn root(&self) -> Arc<SharedNode<T>> {
        self.root
    }

    /// The place of the root: at the top, holding the value that the tree
    /// was made with.
    pub open spec fn top(&self) -> Site<T> {
        Site::top(self@)
    }

    /// A tree whose root holds `val`.
    pub fn new(val: T) -> (tree: SharedTree<T>)
        requires
            obeys_cmp::<T>(),
        ensures
            tree@ == val,
    {
        SharedTree { root: SharedNode::new(val) }
    }

    /// Adds `val` as a new leaf and hands back a handle to that leaf. At
    /// each node from the root down the value goes left where the node's
    /// value is at most `val` and right otherwise, until a free slot takes
    /// it. The value comes back only when that slot lies under a node at
    /// depth `usize::MAX`, below which no node can be made; that node
    /// comes with it.
    pub fn add(&self, val: T) -> (added: Result<Arc<SharedNode<T>>, TooDeep<T>>)
        ensures
            match added {
                Ok(leaf) => {
                    &&& leaf@.val == val
                    &&& leaf@.sound()
                    &&& leaf@.within(self.top())
                    &&& 0 < leaf@.depth() <= usize::MAX
                },
                Err(full) => {
                    &&& full.val == val
                    &&& full.at@.depth() == usize::MAX
                    &&& follows(full.at@.trail, val)
                    &&& full.at@.within(self.top())
                },
            },
    {
        proof {
            use_type_invariant(self);
            assert(self.root@.trail =~= Seq::empty());
        }
        self.add_r(&self.root, val)
    }

    fn add_r(&self, node: &Arc<SharedNode<T>>, val: T) -> (added: Result<Arc<SharedNode<T>>, TooDeep<T>>)
        requires
            follows(node@.trail, val),
            node@.depth() <= usize::MAX,
        ensures
            match added {
                Ok(leaf) => {
                    &&& leaf@.val == val
                    &&& leaf@.sound()
                    &&& leaf@.within(node@)
                    &&& node@.depth() < leaf@.depth() <= usize::MAX
                },
                Err(full) => {
                    &&& full.val == val
                    &&& full.at@.depth() == usize::MAX
                    &&& follows(full.at@.trail, val)
                    &&& full.at@.within(node@)
                },
            },
        decreases usize::MAX - node@.depth(),
    {
        match node.grow(val) {
            Grown::Leaf(leaf) => {
                proof {
                    lemma_within_child(node@, side_of(node@.val, val), leaf@);
                }
                Ok(leaf)
            },
            Grown::Below(child, val) => {
                let added = self.add_r(&child, val);
                proof {
                    lemma_within_child(node@, side_of(node@.val, val), child@);
                    match &added {
                        Ok(leaf) => {
                            lemma_within_chain(leaf@, child@, node@);
                        },
                        Err(full) => {
                            lemma_within_chain(full.at@, child@, node@);
                        },
                    }
                }
                added
            },
            Grown::Full(val) => {
                proof {
                    lemma_within_self(node@);
                }
                Err(TooDeep { val, at: share(node) })
            },
        }
    }

    /// Looks for a node whose value is level with `val`, from the root
    /// down: left where the node's value is under `val`, right where `val`
    /// is under the node's value. The first such node on that way is handed
    /// back. The root is always there to be found; what lies below it is
    /// found if it is in its slot when the descent comes by.
    pub fn find(&self, val: T) -> (found: Option<Arc<SharedNode<T>>>)
        ensures
            level(self@, val) ==> found == Some(self.root()),
            found matches Some(hit) ==> {
                &&& level(hit@.val, val)
                &&& leads(hit@.trail, val)
                &&& hit@.sound()
                &&& hit@.within(self.top())
            },
    {
        proof {
            use_type_invariant(self);
            assert(self.root@.trail =~= Seq::empty());
        }
        self.find_r(&self.root, &val)
    }

    fn find_r(&self, node: &Arc<SharedNode<T>>, val: &T) -> (found: Option<Arc<SharedNode<T>>>)
        requires
            leads(node@.trail, *val),
            node@.depth() <= usize::MAX,
        ensures
            level(node@.val, *val) ==> found == Some(*node),
            found matches Some(hit) ==> {
                &&& level(hit@.val, *val)
                &&& leads(hit@.trail, *val)
                &&& hit@.sound()
                &&& hit@.within(node@)
            },
        decreases usize::MAX - node@.depth(), 1int,
    {
        proof {
            use_type_invariant(self);
        }
        match seek(node.val(), val) {
            None => {
                proof {
                    lemma_within_self(node@);
                }
                Some(share(node))
            },
            Some(side) => {
                let child = node.child(side);
                let found = self.find_below(child, val);
                proof {
                    if let Some(hit) = &found {
                        let below = child.unwrap();
                        lemma_within_child(node@, side, below@);
                        lemma_within_chain(hit@, below@, node@);
                    }
                }
                found
            },
        }
    }

    /// Goes on with a lookup of `val` below a node, given what was read
    /// from the slot on the side of `val`. A free slot ends the lookup with
    /// nothing. A child that holds a value level with `val` is the node
    /// looked for; from any other child the lookup goes further down.
    pub fn find_below(&self, child: Option<Arc<SharedNode<T>>>, val: &T) -> (found: Option<
        Arc<SharedNode<T>>,
    >)
        requires
            child matches Some(below) ==> leads(below@.trail, *val) && below@.depth() <= usize::MAX,
        ensures
            child is None ==> found is None,
            child matches Some(below) ==> (level(below@.val, *val) ==> found == Some(below)),
            found matches Some(hit) ==> {
                &&& child matches Some(below) && hit@.within(below@)
                &&& level(hit@.val, *val)
                &&& leads(hit@.trail, *val)
                &&& hit@.sound()
            },
        decreases
                (match child {
                    Some(below) => usize::MAX - below@.depth(),
                    None => 0,
                }),
                (match child {
                    Some(_) => 2int,
                    None => 0int,
                }),
    {
        match child {
            Some(below) => self.find_r(&below, val),
            None => None,
        }
    }

    /// Visits every node that is reached from the root and hands each
    /// value to `callback`: first the left subtree of a node, then its own
    /// value, then its right subtree. The values handed out are returned as
    /// a ghost sequence, in the order of the calls. Since values that are
    /// not under a node's value lie to its left, that order is descending:
    /// what is not under the root's value comes before it, and what is
    /// under it comes after.
    pub fn walk(&self, callback: impl Fn(&T)) -> (seen: Ghost<Seq<T>>)
        requires
            forall|val: &T| #[trigger] callback.requires((val,)),
        ensures
            descending(seen@),
            parted(seen@, self@),
            seen@.contains(self@),
            forall|i: int|
                0 <= i < seen@.len() ==> callback.ensures((&#[trigger] seen@[i],), ()),
    {
        proof {
            use_type_invariant(self);
        }
        self.walk_in_order(&self.root, &callback)
    }

    fn walk_in_order(&self, node: &Arc<SharedNode<T>>, callback: &impl Fn(&T)) -> (seen: Ghost<
        Seq<T>,
    >)
        requires
            node@.depth() <= usize::MAX,
            forall|val: &T| #[trigger] callback.requires((val,)),
        ensures
            descending(seen@),
            parted(seen@, node@.val),
            seen@.contains(node@.val),
            forall|i: int| 0 <= i < seen@.len() ==> follows(node@.trail, #[trigger] seen@[i]),
            forall|i: int|
                0 <= i < seen@.len() ==> callback.ensures((&#[trigger] seen@[i],), ()),
        decreases usize::MAX - node@.depth(), 1int,
    {
        proof {
            use_type_invariant(self);
        }
        let (left, right) = node.children();
        let parts = self.visit(node, left, right, callback);
        proof {
            lemma_visit(node@, parts@.0, parts@.1);
            lemma_parts(node@, parts@.0, parts@.1);
        }
        Ghost(parts@.0.push(node@.val) + parts@.1)
    }

    /// Visits `node` and what lies below it, given the two children that
    /// were read from its slots: the left child's subtree, then the node's
    /// own value, then the right child's subtree. Returns what was handed
    /// out before the node's value and what was handed out after it.
    /// Nothing is visited for a free slot, and a child that is there is
    /// visited itself.
    pub fn visit(
        &self,
        node: &Arc<SharedNode<T>>,
        left: Option<Arc<SharedNode<T>>>,
        right: Option<Arc<SharedNode<T>>>,
        callback: &impl Fn(&T),
    ) -> (parts: Ghost<(Seq<T>, Seq<T>)>)
        requires
            left matches Some(child) ==> child@.trail == node@.down(Side::Left) && child@.depth()
                <= usize::MAX,
            right matches Some(child) ==> child@.trail == node@.down(Side::Right) && child@.depth()
                <= usize::MAX,
            forall|val: &T| #[trigger] callback.requires((val,)),
        ensures
            node@.sound(),
            left is None ==> parts@.0.len() == 0,
            left matches Some(child) ==> parts@.0.contains(child@.val) && parted(
                parts@.0,
                child@.val,
            ),
            right is None ==> parts@.1.len() == 0,
            right matches Some(child) ==> parts@.1.contains(child@.val) && parted(
                parts@.1,
                child@.val,
            ),
            descending(parts@.0),
            descending(parts@.1),
            forall|i: int|
                0 <= i < parts@.0.len() ==> follows(node@.down(Side::Left), #[trigger] parts@.0[i]),
            forall|i: int|
                0 <= i < parts@.1.len() ==> follows(node@.down(Side::Right), #[trigger] parts@.1[i]),
            forall|i: int|
                0 <= i < parts@.0.len() ==> callback.ensures((&#[trigger] parts@.0[i],), ()),
            callback.ensures((&node@.val,), ()),
            forall|i: int|
                0 <= i < parts@.1.len() ==> callback.ensures((&#[trigger] parts@.1[i],), ()),
        decreases usize::MAX - node@.depth(), 0int,
    {
        let ghost mut high: Seq<T> = Seq::empty();
        let ghost mut low: Seq<T> = Seq::empty();
        if let Some(child) = left {
            let part = self.walk_in_order(&child, callback);
            proof {
                high = part@;
            }
        }
        let val = node.val();
        callback(val);
        if let Some(child) = right {
            let part = self.walk_in_order(&child, callback);
            proof {
                low = part@;
            }
        }
        Ghost((high, low))
    }
}

} // verus!
