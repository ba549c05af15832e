//! Nodes of the shared tree: one stored value, and two child slots behind
//! the node's own lock.
//!
//! The value and the place of a node are fixed when it is made and are read
//! without locking. The two slots are guarded by a reader-writer lock that
//! is held only while a slot is read or filled, never while another node is
//! visited. The lock's invariant says where a child sits; the node's own
//! invariant says that its value fits its place.

use crate::order::route;
use crate::order::side_of;
use crate::order::Side;
use crate::place::follows;
use crate::place::Site;
use crate::place::Step;
use std::sync::Arc;
use vstd::laws_cmp::obeys_cmp;
use vstd::prelude::*;
use vstd::rwlock::RwLock;
use vstd::rwlock::RwLockPredicate;

verus! {

/// The two child slots of a node.
pub struct Links<T: Ord> {
    pub left: Option<Arc<SharedNode<T>>>,
    pub right: Option<Arc<SharedNode<T>>>,
}

/// A node of the tree. Handles to it are shared between the tree and its
/// callers; the value can be read through any of them.
pub struct SharedNode<T: Ord> {
    val: T,
    depth: usize,
    trail: Ghost<Seq<Step<T>>>,
    links: RwLock<Links<T>, Site<T>>,
}

/// What became of a value that was offered to a node.
pub enum Grown<T: Ord> {
    /// The slot was free: the value now sits there, in this new leaf.
    Leaf(Arc<SharedNode<T>>),
    /// The slot was taken: the value comes back, with the child to go on to.
    Below(Arc<SharedNode<T>>, T),
    /// The slot was free, but the node is too deep to get a child: the
    /// value comes back.
    Full(T),
}

impl<T: Ord> View for SharedNode<T> {
    type V = Site<T>;

    closed spec fn view(&self) -> Site<T> {
        Site { trail: self.trail@, val: self.val }
    }
}

/// What the lock of a node at a given place lets in: a child in either slot
/// sits one step below that place.
impl<T: Ord> RwLockPredicate<Links<T>> for Site<T> {
    open spec fn inv(self, links: Links<T>) -> bool {
        &&& links.slot(Side::Left) matches Some(child) ==> child@.trail == self.down(Side::Left)
        &&& links.slot(Side::Right) matches Some(child) ==> child@.trail == self.down(Side::Right)
    }
}

/// `Arc::clone`: a second handle to the node that `node` points to. No node
/// is copied, so the new handle denotes the same node as the old one.
#[verifier::external_body]
pub(crate) fn share<T: Ord>(node: &Arc<SharedNode<T>>) -> (twin: Arc<SharedNode<T>>)
    ensures
        twin == *node,
{
    Arc::clone(node)
}

impl<T: Ord> Links<T> {
    /// The child in the `side` slot, if there is one.
    pub open spec fn slot(self, side: Side) -> Option<Arc<SharedNode<T>>> {
        match side {
            Side::Left => self.left,
            Side::Right => self.right,
        }
    }

    /// These links with `child` in the `side` slot.
    pub open spec fn with(self, side: Side, child: Arc<SharedNode<T>>) -> Links<T> {
        match side {
            Side::Left => Links { left: Some(child), right: self.right },
            Side::Right => Links { left: self.left, right: Some(child) },
        }
    }

    /// Two free slots.
    pub fn empty() -> (links: Links<T>)
        ensures
            links.slot(Side::Left) is None,
            links.slot(Side::Right) is None,
    {
        Links { left: None, right: None }
    }

    /// A handle to the child in the `side` slot, if there is one.
    pub fn pick(&self, side: Side) -> (child: Option<Arc<SharedNode<T>>>)
        ensures
            child == self.slot(side),
    {
        let held = match side {
            Side::Left => &self.left,
            Side::Right => &self.right,
        };
        match held {
            Some(node) => Some(share(node)),
            None => None,
        }
    }

    /// Offers `val` to the `side` slot of the node `at`, whose links these
    /// are. A child that is there stays there, and the value comes back with
    /// a handle to it. A free slot gets a new leaf that holds the value,
    /// unless `at` lies at the greatest depth there is: then the value
    /// comes back alone. Whatever was in a slot before is in it afterwards.
    pub fn settle(self, at: &SharedNode<T>, side: Side, val: T) -> (out: (Links<T>, Grown<T>))
        requires
            at@.inv(self),
            follows(at@.trail, val),
            side == side_of(at@.val, val),
        ensures
            at@.inv(out.0),
            forall|any: Side| self.slot(any) is Some ==> out.0.slot(any) == self.slot(any),
            match self.slot(side) {
                Some(child) => out.0 == self && out.1 == Grown::Below(child, val),
                None => if at@.depth() == usize::MAX {
                    out.0 == self && out.1 == Grown::Full(val)
                } else {
                    &&& out.1 matches Grown::Leaf(leaf)
                    &&& leaf@ == at@.child(side, val)
                    &&& leaf@.sound()
                    &&& out.0 == self.with(side, leaf)
                },
            },
    {
        proof {
            use_type_invariant(at);
        }
        match self.pick(side) {
            Some(child) => (self, Grown::Below(child, val)),
            None => {
                if at.depth == usize::MAX {
                    (self, Grown::Full(val))
                } else {
                    let leaf = SharedNode::leaf(at, side, val);
                    let kept = share(&leaf);
                    let links = match side {
                        Side::Left => Links { left: Some(kept), right: self.right },
                        Side::Right => Links { left: self.left, right: Some(kept) },
                    };
                    (links, Grown::Leaf(leaf))
                }
            },
        }
    }
}

impl<T: Ord> SharedNode<T> {
    #[verifier::type_invariant]
    spec fn wf(&self) -> bool {
        &&& obeys_cmp::<T>()
        &&& self.depth == self.trail@.len()
        &&& self.links.pred() == self@
        &&& follows(self.trail@, self.val)
    }

    /// A root: a node with nothing above it, holding `val`.
    pub(crate) fn new(val: T) -> (node: Arc<SharedNode<T>>)
        requires
            obeys_cmp::<T>(),
        ensures
            node@ == Site::top(val),
    {
        let ghost site = Site::top(val);
        let links = RwLock::new(Links::empty(), Ghost(site));
        Arc::new(SharedNode { val, depth: 0, trail: Ghost(Seq::empty()), links })
    }

    /// A leaf for the `side` slot of `above`, holding `val`.
    fn leaf(above: &SharedNode<T>, side: Side, val: T) -> (node: Arc<SharedNode<T>>)
        requires
            above@.depth() < usize::MAX,
            follows(above@.trail, val),
            side == side_of(above@.val, val),
        ensures
            node@ == above@.child(side, val),
            node@.sound(),
    {
        proof {
            use_type_invariant(above);
        }
        let ghost site = above@.child(side, val);
        let depth: usize = above.depth + 1;
        let links = RwLock::new(Links::empty(), Ghost(site));
        Arc::new(SharedNode { val, depth, trail: Ghost(site.trail), links })
    }

    /// The stored value. Like every node, this one holds a value that fits
    /// its place, at a depth that a `usize` can hold.
    pub fn val(&self) -> (val: &T)
        ensures
            *val == self@.val,
            self@.sound(),
            self@.depth() <= usize::MAX,
    {
        proof {
            use_type_invariant(self);
        }
        &self.val
    }

    /// A handle to the child in the `side` slot as it is when the node's
    /// lock is held, or nothing if the slot is free then. The lock is
    /// released before this returns.
    pub fn child(&self, side: Side) -> (child: Option<Arc<SharedNode<T>>>)
        ensures
            child matches Some(node) ==> {
                &&& node@.trail == self@.down(side)
                &&& node@.sound()
                &&& node@.depth() <= usize::MAX
            },
    {
        proof {
            use_type_invariant(self);
        }
        let guard = self.links.acquire_read();
        let child = guard.borrow().pick(side);
        guard.release_read();
        proof {
            if let Some(node) = &child {
                use_type_invariant(&**node);
            }
        }
        child
    }

    /// Handles to both children as they are at one moment, the left one
    /// first. The lock is released before this returns.
    pub fn children(&self) -> (pair: (Option<Arc<SharedNode<T>>>, Option<Arc<SharedNode<T>>>))
        ensures
            pair.0 matches Some(node) ==> {
                &&& node@.trail == self@.down(Side::Left)
                &&& node@.sound()
                &&& node@.depth() <= usize::MAX
            },
            pair.1 matches Some(node) ==> {
                &&& node@.trail == self@.down(Side::Right)
                &&& node@.sound()
                &&& node@.depth() <= usize::MAX
            },
    {
        proof {
            use_type_invariant(self);
        }
        let guard = self.links.acquire_read();
        let left = guard.borrow().pick(Side::Left);
        let right = guard.borrow().pick(Side::Right);
        guard.release_read();
        proof {
            if let Some(node) = &left {
                use_type_invariant(&**node);
            }
            if let Some(node) = &right {
                use_type_invariant(&**node);
            }
        }
        (left, right)
    }

    /// Offers `val` to this node: picks the slot by the insertion rule and,
    /// with the node's lock held for the test and the write alike, fills
    /// the slot if it is free. The lock is released before this returns.
    pub fn grow(&self, val: T) -> (grown: Grown<T>)
        requires
            follows(self@.trail, val),
        ensures
            match grown {
                Grown::Leaf(leaf) => {
                    &&& leaf@ == self@.child(side_of(self@.val, val), val)
                    &&& leaf@.sound()
                    &&& leaf@.depth() <= usize::MAX
                },
                Grown::Below(child, back) => {
                    &&& back == val
                    &&& child@.trail == self@.down(side_of(self@.val, val))
                    &&& child@.sound()
                    &&& child@.depth() <= usize::MAX
                },
                Grown::Full(back) => back == val && self@.depth() == usize::MAX,
            },
    {
        proof {
            use_type_invariant(self);
        }
        let side = route(&self.val, &val);
        let (links, guard) = self.links.acquire_write();
        let (links, grown) = links.settle(self, side, val);
        guard.release_write(links);
        proof {
            match &grown {
                Grown::Leaf(node) => {
                    use_type_invariant(&**node);
                },
                Grown::Below(node, _) => {
                    use_type_invariant(&**node);
                },
                Grown::Full(_) => {},
            }
        }
        grown
    }
}

} // verus!
