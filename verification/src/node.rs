//! The tree as a plain value: a node owns its two subtrees.
//!
//! What a tree holds, where a value goes and what a lookup meets are spec
//! functions of that value. The laws of the tree are proved of them here:
//! an insertion adds one value and loses none, keeps the ordering, and is
//! met by every later lookup; a visit in order runs from the greatest value
//! to the least.

use crate::order::at_most;
use crate::order::descending;
use crate::order::flat;
use crate::order::lemma_descending_join;
use crate::order::lemma_level_swap;
use crate::order::lemma_order_laws;
use crate::order::level;
use crate::order::side_of;
use crate::order::turn_of;
use crate::order::under;
use crate::order::Side;
use vstd::laws_cmp::obeys_cmp;
use vstd::multiset::Multiset;
use vstd::prelude::*;

verus! {

/// One stored value, and the subtrees in its two slots.
pub struct Node<T: Ord> {
    pub val: T,
    pub left: Option<Box<Node<T>>>,
    pub right: Option<Box<Node<T>>>,
}

/// A value put into the first part of a joined sequence lands at the same
/// point of the whole.
proof fn lemma_insert_high<T>(high: Seq<T>, mid: T, low: Seq<T>, at: int, val: T)
    requires
        0 <= at <= high.len(),
    ensures
        high.insert(at, val).push(mid) + low == (high.push(mid) + low).insert(at, val),
{
    assert(high.insert(at, val).push(mid) + low =~= (high.push(mid) + low).insert(at, val));
}

/// A value put into the last part of a joined sequence lands behind the
/// first part and the value in the middle.
proof fn lemma_insert_low<T>(high: Seq<T>, mid: T, low: Seq<T>, at: int, val: T)
    requires
        0 <= at <= low.len(),
    ensures
        high.push(mid) + low.insert(at, val) == (high.push(mid) + low).insert(
            high.len() + 1 + at,
            val,
        ),
{
    assert(high.push(mid) + low.insert(at, val) =~= (high.push(mid) + low).insert(
        high.len() + 1 + at,
        val,
    ));
}

impl<T: Ord> Node<T> {
    /// A node that holds `val` and has both slots free.
    pub open spec fn lone(val: T) -> Node<T> {
        Node { val, left: None, right: None }
    }

    /// The subtree in the `side` slot, if there is one.
    pub open spec fn slot(self, side: Side) -> Option<Box<Node<T>>> {
        match side {
            Side::Left => self.left,
            Side::Right => self.right,
        }
    }

    /// This tree after `val` was added: at each node the value goes to the
    /// slot that the insertion rule gives it, and the first free slot on
    /// that way takes it as a lone node. Nothing else changes.
    pub open spec fn with(self, val: T) -> Node<T>
        decreases self,
    {
        match side_of(self.val, val) {
            Side::Left => Node {
                val: self.val,
                left: Some(
                    Box::new(
                        match self.left {
                            Some(child) => child.with(val),
                            None => Node::lone(val),
                        },
                    ),
                ),
                right: self.right,
            },
            Side::Right => Node {
                val: self.val,
                left: self.left,
                right: Some(
                    Box::new(
                        match self.right {
                            Some(child) => child.with(val),
                            None => Node::lone(val),
                        },
                    ),
                ),
            },
        }
    }

    /// The node that a lookup of `val` meets: the first one on the way of
    /// `val` whose value is level with it, or none if that way ends in a
    /// free slot.
    pub open spec fn spot(self, val: T) -> Option<Node<T>>
        decreases self,
    {
        match turn_of(self.val, val) {
            None => Some(self),
            Some(Side::Left) => match self.left {
                Some(child) => child.spot(val),
                None => None,
            },
            Some(Side::Right) => match self.right {
                Some(child) => child.spot(val),
                None => None,
            },
        }
    }

    /// The values of this tree as a visit in order meets them: those of the
    /// left subtree, the node's own, those of the right subtree.
    pub open spec fn in_order(self) -> Seq<T>
        decreases self,
    {
        (match self.left {
            Some(child) => child.in_order(),
            None => Seq::empty(),
        }).push(self.val) + (match self.right {
            Some(child) => child.in_order(),
            None => Seq::empty(),
        })
    }

    /// The values of this tree, each as often as it is stored.
    pub open spec fn values(self) -> Multiset<T> {
        self.in_order().to_multiset()
    }

    /// Some node of this tree holds `val`.
    pub open spec fn holds(self, val: T) -> bool {
        self.in_order().contains(val)
    }

    /// How many nodes this tree has.
    pub open spec fn size(self) -> nat {
        self.in_order().len()
    }

    /// The node that is reached from this one by taking the slots of
    /// `path` in turn, if all of them are taken.
    pub open spec fn at(self, path: Seq<Side>) -> Option<Node<T>>
        decreases path.len(),
    {
        if path.len() == 0 {
            Some(self)
        } else {
            match self.slot(path.first()) {
                Some(child) => child.at(path.drop_first()),
                None => None,
            }
        }
    }

    /// The way of an insertion of `val`: the slots it passes, down to the
    /// free one that takes it.
    pub open spec fn way(self, val: T) -> Seq<Side>
        decreases self,
    {
        match side_of(self.val, val) {
            Side::Left => match self.left {
                Some(child) => seq![Side::Left] + child.way(val),
                None => seq![Side::Left],
            },
            Side::Right => match self.right {
                Some(child) => seq![Side::Right] + child.way(val),
                None => seq![Side::Right],
            },
        }
    }

    /// This tree after the values of `vals` were added one after the other.
    pub open spec fn with_all(self, vals: Seq<T>) -> Node<T>
        decreases vals.len(),
    {
        if vals.len() == 0 {
            self
        } else {
            self.with_all(vals.drop_last()).with(vals.last())
        }
    }

    /// The ordering: no value in the left subtree of a node is under the
    /// node's value, every value in its right subtree is, and both subtrees
    /// are ordered in turn.
    pub open spec fn ordered(self) -> bool
        decreases self,
    {
        &&& match self.left {
            Some(child) => child.ordered() && forall|val: T|
                child.in_order().contains(val) ==> at_most(self.val, val),
            None => true,
        }
        &&& match self.right {
            Some(child) => child.ordered() && forall|val: T|
                child.in_order().contains(val) ==> under(val, self.val),
            None => true,
        }
    }

    /// The visit in order of a subtree slot: nothing for a free slot.
    pub open spec fn run(slot: Option<Box<Node<T>>>) -> Seq<T> {
        match slot {
            Some(child) => child.in_order(),
            None => Seq::empty(),
        }
    }

    /// The visit in order, made of the runs of the two slots.
    pub proof fn lemma_in_order(self)
        ensures
            self.in_order() == Node::run(self.left).push(self.val) + Node::run(self.right),
            self.in_order()[Node::run(self.left).len() as int] == self.val,
            self.holds(self.val),
    {
        assert(self.in_order() =~= Node::run(self.left).push(self.val) + Node::run(self.right));
        assert(self.in_order()[Node::run(self.left).len() as int] == self.val);
    }

    /// A value is held by a tree exactly when it is the root's or is held
    /// by one of the two subtrees.
    pub proof fn lemma_holds(self, val: T)
        ensures
            self.holds(val) <==> val == self.val || Node::run(self.left).contains(val)
                || Node::run(self.right).contains(val),
    {
        self.lemma_in_order();
        let high = Node::run(self.left);
        let low = Node::run(self.right);
        let all = high.push(self.val) + low;
        if all.contains(val) {
            let i = all.index_of(val);
            if i < high.len() {
                assert(high[i] == val);
            } else if i > high.len() {
                assert(low[i - high.len() - 1] == val);
            }
        }
        if high.contains(val) {
            let i = high.index_of(val);
            assert(all[i] == val);
        }
        if low.contains(val) {
            let i = low.index_of(val);
            assert(all[high.len() + 1 + i] == val);
        }
    }

    /// The ordering read the other way round: every value in the left
    /// subtree of a node is at most the node's value, and every value in
    /// its right subtree is above it.
    pub open spec fn mirrored(self) -> bool
        decreases self,
    {
        &&& match self.left {
            Some(child) => child.mirrored() && forall|val: T|
                child.in_order().contains(val) ==> at_most(val, self.val),
            None => true,
        }
        &&& match self.right {
            Some(child) => child.mirrored() && forall|val: T|
                child.in_order().contains(val) ==> under(self.val, val),
            None => true,
        }
    }

    /// An insertion puts its value at one point of the visit in order and
    /// leaves the other values where they were. Returns that point.
    pub proof fn lemma_with_in_order(self, val: T) -> (at: int)
        ensures
            0 <= at <= self.in_order().len(),
            self.with(val).in_order() == self.in_order().insert(at, val),
        decreases self,
    {
        let high = Node::run(self.left);
        let low = Node::run(self.right);
        self.lemma_in_order();
        self.with(val).lemma_in_order();
        match side_of(self.val, val) {
            Side::Left => {
                let at = match self.left {
                    Some(child) => child.lemma_with_in_order(val),
                    None => {
                        Node::lone(val).lemma_in_order();
                        assert(Node::lone(val).in_order() =~= high.insert(0, val));
                        0
                    },
                };
                let grown = Node::run(self.with(val).left);
                assert(grown == high.insert(at, val));
                assert(Node::run(self.with(val).right) == low);
                lemma_insert_high(high, self.val, low, at, val);
                at
            },
            Side::Right => {
                let at = match self.right {
                    Some(child) => child.lemma_with_in_order(val),
                    None => {
                        Node::lone(val).lemma_in_order();
                        assert(Node::lone(val).in_order() =~= low.insert(0, val));
                        0
                    },
                };
                let grown = Node::run(self.with(val).right);
                assert(grown == low.insert(at, val));
                assert(Node::run(self.with(val).left) == high);
                lemma_insert_low(high, self.val, low, at, val);
                high.len() + 1 + at
            },
        }
    }

    /// An insertion adds exactly one node, holding the value, also where
    /// the value is stored already: the multiset of values gains that one
    /// value and loses none.
    pub proof fn lemma_with_values(self, val: T)
        ensures
            self.with(val).values() == self.values().insert(val),
            self.with(val).size() == self.size() + 1,
            self.with(val).holds(val),
            forall|other: T|
                #[trigger] self.with(val).in_order().contains(other) <==> self.in_order().contains(
                    other,
                ) || other == val,
    {
        let at = self.lemma_with_in_order(val);
        let before = self.in_order();
        let after = before.insert(at, val);
        vstd::seq_lib::to_multiset_insert(before, at, val);
        assert(after[at] == val);
        assert forall|other: T| #[trigger] after.contains(other) <==> before.contains(other)
            || other == val by {
            if before.contains(other) {
                let i = before.index_of(other);
                if i < at {
                    assert(after[i] == other);
                } else {
                    assert(after[i + 1] == other);
                }
            }
            if after.contains(other) {
                let i = after.index_of(other);
                if i < at {
                    assert(before[i] == other);
                } else if i > at {
                    assert(before[i - 1] == other);
                }
            }
        }
    }

    /// The order of two insertions does not change what the tree holds.
    pub proof fn lemma_with_any_order(self, first: T, second: T)
        ensures
            self.with(first).with(second).values() == self.with(second).with(first).values(),
    {
        self.lemma_with_values(first);
        self.with(first).lemma_with_values(second);
        self.lemma_with_values(second);
        self.with(second).lemma_with_values(first);
        assert(self.values().insert(first).insert(second) =~= self.values().insert(second).insert(
            first,
        ));
    }

    /// An insertion keeps the ordering.
    pub proof fn lemma_with_ordered(self, val: T)
        requires
            obeys_cmp::<T>(),
            self.ordered(),
        ensures
            self.with(val).ordered(),
        decreases self,
    {
        lemma_order_laws::<T>();
        let side = side_of(self.val, val);
        let grown = match self.slot(side) {
            Some(child) => child.with(val),
            None => Node::lone(val),
        };
        match self.slot(side) {
            Some(child) => {
                child.lemma_with_ordered(val);
                child.lemma_with_values(val);
            },
            None => {
                Node::lone(val).lemma_holds(val);
                assert forall|other: T| grown.in_order().contains(other) implies other == val by {
                    Node::lone(val).lemma_holds(other);
                }
            },
        }
        assert(grown.ordered());
        assert forall|other: T| grown.in_order().contains(other) implies match side {
            Side::Left => at_most(self.val, other),
            Side::Right => under(other, self.val),
        } by {
            if other != val {
                assert(self.slot(side) is Some);
                assert(self.slot(side).unwrap().in_order().contains(other));
            }
        }
        match side {
            Side::Left => {
                assert(self.with(val).left == Some(Box::new(grown)));
            },
            Side::Right => {
                assert(self.with(val).right == Some(Box::new(grown)));
            },
        }
    }

    /// What a lookup meets is a node of the tree that holds a value level
    /// with the one looked for.
    pub proof fn lemma_spot_level(self, val: T)
        ensures
            self.spot(val) matches Some(hit) ==> level(hit.val, val) && self.holds(hit.val),
        decreases self,
    {
        self.lemma_in_order();
        match turn_of(self.val, val) {
            None => {},
            Some(side) => {
                if let Some(child) = self.slot(side) {
                    child.lemma_spot_level(val);
                    if let Some(hit) = child.spot(val) {
                        self.lemma_holds(hit.val);
                    }
                }
            },
        }
    }

    /// A value that is stored is found: in an ordered tree that holds a
    /// value level with `val`, a lookup of `val` meets a node.
    pub proof fn lemma_spot_finds(self, val: T, held: T)
        requires
            obeys_cmp::<T>(),
            self.ordered(),
            self.holds(held),
            level(held, val),
        ensures
            self.spot(val) is Some,
        decreases self,
    {
        lemma_order_laws::<T>();
        lemma_level_swap(held, val, self.val);
        crate::order::lemma_level_self(self.val);
        self.lemma_holds(held);
        match turn_of(self.val, val) {
            None => {},
            Some(side) => {
                assert(held != self.val);
                let other = match side {
                    Side::Left => self.right,
                    Side::Right => self.left,
                };
                if Node::run(other).contains(held) {
                    match side {
                        Side::Left => {
                            assert(under(held, self.val));
                        },
                        Side::Right => {
                            assert(at_most(self.val, held));
                        },
                    }
                    assert(false);
                }
                assert(Node::run(self.slot(side)).contains(held));
                let child = self.slot(side).unwrap();
                child.lemma_spot_finds(val, held);
            },
        }
    }

    /// A lookup meets a node exactly when the tree holds a value level with
    /// the one looked for; a value that was never stored is not found.
    pub proof fn lemma_spot_iff_held(self, val: T)
        requires
            obeys_cmp::<T>(),
            self.ordered(),
        ensures
            self.spot(val) is Some <==> exists|held: T| self.holds(held) && level(held, val),
    {
        self.lemma_spot_level(val);
        if self.spot(val) is Some {
            let hit = self.spot(val).unwrap();
            assert(self.holds(hit.val) && level(hit.val, val));
        }
        if exists|held: T| self.holds(held) && level(held, val) {
            let held = choose|held: T| self.holds(held) && level(held, val);
            self.lemma_spot_finds(val, held);
        }
    }

    /// What was added is found, and what was found before is found still.
    pub proof fn lemma_with_spot(self, val: T, other: T)
        requires
            obeys_cmp::<T>(),
            self.ordered(),
        ensures
            self.with(val).spot(val) is Some,
            self.spot(other) is Some ==> self.with(val).spot(other) is Some,
    {
        crate::order::lemma_level_self(val);
        self.lemma_with_ordered(val);
        self.lemma_with_values(val);
        self.with(val).lemma_spot_finds(val, val);
        if self.spot(other) is Some {
            self.lemma_spot_level(other);
            let hit = self.spot(other).unwrap();
            self.with(val).lemma_spot_finds(other, hit.val);
        }
    }

    /// The new leaf can be reached: the way of an insertion ends in a slot
    /// that is free before it and holds a lone node with the value after it.
    pub proof fn lemma_with_leaf(self, val: T)
        ensures
            self.at(self.way(val)) is None,
            self.with(val).at(self.way(val)) == Some(Node::lone(val)),
        decreases self,
    {
        let side = side_of(self.val, val);
        let way = self.way(val);
        assert(way.first() == side);
        match self.slot(side) {
            Some(child) => {
                child.lemma_with_leaf(val);
                assert(way.drop_first() =~= child.way(val));
                assert(self.with(val).slot(side) == Some(Box::new(child.with(val))));
            },
            None => {
                assert(way.drop_first() =~= Seq::<Side>::empty());
                assert(self.with(val).slot(side) == Some(Box::new(Node::lone(val))));
                assert(Node::lone(val).at(Seq::<Side>::empty()) == Some(Node::lone(val)));
            },
        }
    }

    /// No node is lost or moved by an insertion. A node that could be
    /// reached before can be reached by the same path after it, and is as
    /// it was, or, if it lies on the way of the new value, has that value
    /// added below it.
    pub proof fn lemma_with_keeps(self, val: T, path: Seq<Side>)
        ensures
            self.at(path) matches Some(node) ==> self.with(val).at(path) == Some(node)
                || self.with(val).at(path) == Some(node.with(val)),
        decreases path.len(),
    {
        if path.len() > 0 {
            if let Some(child) = self.slot(path.first()) {
                child.lemma_with_keeps(val, path.drop_first());
                if path.first() == side_of(self.val, val) {
                    assert(self.with(val).slot(path.first()) == Some(Box::new(child.with(val))));
                } else {
                    assert(self.with(val).slot(path.first()) == self.slot(path.first()));
                }
            }
        }
    }

    /// Whatever the order in which values are added, the tree stays
    /// ordered, holds what it held and each of the values, and finds every
    /// one of them and everything that was found before.
    pub proof fn lemma_with_all(self, vals: Seq<T>)
        requires
            obeys_cmp::<T>(),
            self.ordered(),
        ensures
            self.with_all(vals).ordered(),
            self.with_all(vals).values() == self.values().add(vals.to_multiset()),
            forall|i: int| 0 <= i < vals.len() ==> self.with_all(vals).spot(#[trigger] vals[i]) is Some,
            forall|other: T|
                self.spot(other) is Some ==> #[trigger] self.with_all(vals).spot(other) is Some,
        decreases vals.len(),
    {
        if vals.len() == 0 {
            vals.to_multiset_ensures();
            assert(vals.to_multiset() =~= Multiset::empty());
            assert(self.values() =~= self.values().add(vals.to_multiset()));
        } else {
            let before = self.with_all(vals.drop_last());
            self.lemma_with_all(vals.drop_last());
            before.lemma_with_ordered(vals.last());
            before.lemma_with_values(vals.last());
            assert(vals =~= vals.drop_last().push(vals.last()));
            vstd::seq_lib::to_multiset_build(vals.drop_last(), vals.last());
            assert(before.values().insert(vals.last()) =~= self.values().add(vals.to_multiset()));
            assert forall|i: int| 0 <= i < vals.len() implies self.with_all(vals).spot(
                #[trigger] vals[i],
            ) is Some by {
                before.lemma_with_spot(vals.last(), vals[i]);
                if i < vals.len() - 1 {
                    assert(vals.drop_last()[i] == vals[i]);
                }
            }
            assert forall|other: T| self.spot(other) is Some implies #[trigger] self.with_all(
                vals,
            ).spot(other) is Some by {
                before.lemma_with_spot(vals.last(), other);
            }
        }
    }

    /// An ordered tree meets the mirrored reading of the ordering exactly
    /// when all its values are level. It fails as soon as a value lies to
    /// the left of a smaller one, as every value added above the root's
    /// does.
    pub proof fn lemma_mirrored_iff_flat(self)
        requires
            obeys_cmp::<T>(),
            self.ordered(),
        ensures
            self.mirrored() <==> flat(self.in_order()),
        decreases self,
    {
        lemma_order_laws::<T>();
        crate::order::lemma_level_self(self.val);
        let high = Node::run(self.left);
        let low = Node::run(self.right);
        let all = self.in_order();
        self.lemma_in_order();
        if let Some(child) = self.left {
            child.lemma_mirrored_iff_flat();
            child.lemma_in_order();
        }
        if let Some(child) = self.right {
            child.lemma_mirrored_iff_flat();
            child.lemma_in_order();
        }
        if self.mirrored() {
            if let Some(child) = self.right {
                assert(child.in_order().contains(child.val));
                assert(under(child.val, self.val));
                assert(under(self.val, child.val));
                assert(false);
            }
            assert(low =~= Seq::empty());
            assert forall|i: int| 0 <= i < all.len() implies level(#[trigger] all[i], self.val) by {
                if i < high.len() {
                    assert(high[i] == all[i]);
                    assert(high.contains(all[i]));
                    assert(self.left is Some);
                    assert(self.left.unwrap().in_order().contains(all[i]));
                    assert(at_most(self.val, all[i]));
                    assert(at_most(all[i], self.val));
                    assert(!under(all[i], self.val));
                } else {
                    assert(all[i] == self.val);
                }
            }
            assert forall|i: int, j: int| 0 <= i < all.len() && 0 <= j < all.len() implies level(
                #[trigger] all[i],
                #[trigger] all[j],
            ) by {
                assert(level(all[i], self.val) && level(all[j], self.val));
                assert(level(self.val, all[j]));
            }
        }
        if flat(all) {
            assert forall|val: T| all.contains(val) implies level(val, self.val) by {
                let i = all.index_of(val);
                assert(level(all[i], all[high.push(self.val).len() - 1]));
            }
            if let Some(child) = self.right {
                assert(child.in_order().contains(child.val));
                self.lemma_holds(child.val);
                assert(all.contains(child.val));
                assert(level(child.val, self.val));
                assert(under(child.val, self.val));
                assert(false);
            }
            if let Some(child) = self.left {
                assert forall|i: int, j: int|
                    0 <= i < high.len() && 0 <= j < high.len() implies level(
                    #[trigger] high[i],
                    #[trigger] high[j],
                ) by {
                    assert(all[i] == high[i] && all[j] == high[j]);
                }
                assert forall|val: T| high.contains(val) implies at_most(val, self.val) by {
                    self.lemma_holds(val);
                }
            }
        }
    }

    /// A visit in order of an ordered tree is descending.
    pub proof fn lemma_in_order_descending(self)
        requires
            obeys_cmp::<T>(),
            self.ordered(),
        ensures
            descending(self.in_order()),
        decreases self,
    {
        let high = Node::run(self.left);
        let low = Node::run(self.right);
        self.lemma_in_order();
        if let Some(child) = self.left {
            child.lemma_in_order_descending();
        }
        if let Some(child) = self.right {
            child.lemma_in_order_descending();
        }
        assert forall|i: int| 0 <= i < high.len() implies at_most(self.val, #[trigger] high[i]) by {
            assert(high.contains(high[i]));
        }
        assert forall|j: int| 0 <= j < low.len() implies under(#[trigger] low[j], self.val) by {
            assert(low.contains(low[j]));
        }
        lemma_descending_join(high, self.val, low);
    }
}

} // verus!
