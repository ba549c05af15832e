//! Where a node sits: the values met on the way down from the root, and the
//! slot taken below each of them.
//!
//! A node never moves and its value never changes, so its place is fixed for
//! good when it is made. The ordering of the tree is stated over places: a
//! value fits a place when, at every node above, it lies on the side that
//! the insertion rule sends it to.

use crate::order::at_most;
use crate::order::descending;
use crate::order::level;
use crate::order::parted;
use crate::order::side_of;
use crate::order::splits;
use crate::order::turn_of;
use crate::order::under;
use crate::order::Side;
use vstd::prelude::*;

verus! {

/// One step of a descent: the value of the node that was passed, and the
/// slot that was taken below it.
pub struct Step<T> {
    pub at: T,
    pub side: Side,
}

/// The place of a node: the steps that lead to it from the root, and the
/// value it holds.
pub struct Site<T> {
    pub trail: Seq<Step<T>>,
    pub val: T,
}

/// `val` lies, at every step of `trail`, on the side that the insertion rule
/// gives it there.
pub open spec fn follows<T: Ord>(trail: Seq<Step<T>>, val: T) -> bool {
    forall|i: int| 0 <= i < trail.len() ==> (#[trigger] trail[i]).side == side_of(trail[i].at, val)
}

/// A lookup of `val` walks down `trail`: at every step it has to turn, and
/// turns the way the trail goes.
pub open spec fn leads<T: Ord>(trail: Seq<Step<T>>, val: T) -> bool {
    forall|i: int|
        0 <= i < trail.len() ==> turn_of((#[trigger] trail[i]).at, val) == Some(trail[i].side)
}

impl<T: Ord> Site<T> {
    /// The place of a root that holds `val`.
    pub open spec fn top(val: T) -> Site<T> {
        Site { trail: Seq::empty(), val }
    }

    /// How many nodes lie above this one.
    pub open spec fn depth(self) -> int {
        self.trail.len() as int
    }

    /// The trail of a child in the `side` slot of a node at this place.
    pub open spec fn down(self, side: Side) -> Seq<Step<T>> {
        self.trail.push(Step { at: self.val, side })
    }

    /// The place of a child in the `side` slot that holds `val`.
    pub open spec fn child(self, side: Side, val: T) -> Site<T> {
        Site { trail: self.down(side), val }
    }

    /// The value held here fits the trail that leads here.
    pub open spec fn sound(self) -> bool {
        follows(self.trail, self.val)
    }

    /// This place is `above` itself or lies in the subtree below it.
    pub open spec fn within(self, above: Site<T>) -> bool {
        &&& above.depth() <= self.depth()
        &&& self.trail.take(above.depth()) == above.trail
        &&& if self.depth() == above.depth() {
            self.val == above.val
        } else {
            self.trail[above.depth()].at == above.val
        }
    }

    /// The ordering read the other way round: the value held here is at
    /// most that of every node it lies to the left of, and above that of
    /// every node it lies to the right of.
    pub open spec fn flipped(self) -> bool {
        forall|i: int|
            0 <= i < self.trail.len() ==> match (#[trigger] self.trail[i]).side {
                Side::Left => at_most(self.val, self.trail[i].at),
                Side::Right => under(self.trail[i].at, self.val),
            }
    }

    /// Every node above holds a value level with the one held here, and has
    /// this place to its left.
    pub open spec fn stacked(self) -> bool {
        forall|i: int|
            0 <= i < self.trail.len() ==> (#[trigger] self.trail[i]).side == Side::Left && level(
                self.trail[i].at,
                self.val,
            )
    }
}

/// A value that fits a trail fits every trail that the first extends.
pub proof fn lemma_follows_prefix<T: Ord>(trail: Seq<Step<T>>, len: int, val: T)
    requires
        follows(trail, val),
        0 <= len <= trail.len(),
    ensures
        follows(trail.take(len), val),
{
}

/// The ordering of the tree, read off a place. A node in the left subtree
/// of another holds a value that is not under the other's; a node in the
/// right subtree holds one that is strictly under it.
pub proof fn lemma_ordered_below<T: Ord>(site: Site<T>, i: int)
    requires
        vstd::laws_cmp::obeys_cmp::<T>(),
        site.sound(),
        0 <= i < site.trail.len(),
    ensures
        site.trail[i].side == Side::Left <==> at_most(site.trail[i].at, site.val),
        site.trail[i].side == Side::Right <==> under(site.val, site.trail[i].at),
{
    crate::order::lemma_order_laws::<T>();
}

/// The flipped reading of the ordering holds of a sound place exactly when
/// the place is stacked. It fails as soon as a value lies to the left of a
/// smaller one, as every value added above the root's does.
pub proof fn lemma_flipped_iff_stacked<T: Ord>(site: Site<T>)
    requires
        vstd::laws_cmp::obeys_cmp::<T>(),
        site.sound(),
    ensures
        site.flipped() <==> site.stacked(),
{
    crate::order::lemma_order_laws::<T>();
    if site.flipped() {
        assert forall|i: int| 0 <= i < site.trail.len() implies (#[trigger] site.trail[i]).side
            == Side::Left && level(site.trail[i].at, site.val) by {
            lemma_ordered_below(site, i);
            assert(level(site.val, site.trail[i].at) <==> level(site.trail[i].at, site.val));
        }
    }
    if site.stacked() {
        assert forall|i: int| 0 <= i < site.trail.len() implies match (#[trigger] site.trail[i]).side {
            Side::Left => at_most(site.val, site.trail[i].at),
            Side::Right => under(site.trail[i].at, site.val),
        } by {
            assert(level(site.val, site.trail[i].at) <==> level(site.trail[i].at, site.val));
        }
    }
}

/// A lookup is led to what an insertion left behind. On the way down to a
/// sound place, a lookup of the value held there either turns the way the
/// trail goes or has met a node whose value is level with it; and at the
/// place itself it stops.
pub proof fn lemma_lookup_meets_insert<T: Ord>(site: Site<T>, i: int)
    requires
        vstd::laws_cmp::obeys_cmp::<T>(),
        site.sound(),
        0 <= i < site.trail.len(),
    ensures
        turn_of(site.trail[i].at, site.val) == Some(site.trail[i].side) || level(
            site.trail[i].at,
            site.val,
        ),
        turn_of(site.val, site.val) is None,
{
    crate::order::lemma_level_self(site.val);
}

/// An in-order visit below one node. Let `high` hold values that fit the
/// node's left slot and `low` values that fit its right slot, each of the
/// two descending. Then `high`, the node's own value and `low`, in this
/// order, are descending, and each of them fits the node's own trail.
pub proof fn lemma_visit<T: Ord>(site: Site<T>, high: Seq<T>, low: Seq<T>)
    requires
        vstd::laws_cmp::obeys_cmp::<T>(),
        site.sound(),
        descending(high),
        descending(low),
        forall|k: int| 0 <= k < high.len() ==> follows(site.down(Side::Left), #[trigger] high[k]),
        forall|k: int| 0 <= k < low.len() ==> follows(site.down(Side::Right), #[trigger] low[k]),
    ensures
        descending(high.push(site.val) + low),
        (high.push(site.val) + low).contains(site.val),
        forall|k: int|
            0 <= k < (high.push(site.val) + low).len() ==> follows(
                site.trail,
                #[trigger] (high.push(site.val) + low)[k],
            ),
{
    crate::order::lemma_order_laws::<T>();
    let all = high.push(site.val) + low;
    let mid = high.push(site.val).len() - 1;
    let last = site.depth();
    assert(all[mid] == site.val);
    assert forall|k: int| 0 <= k < high.len() implies at_most(site.val, #[trigger] high[k])
        && follows(site.trail, high[k]) by {
        assert(site.down(Side::Left)[last].side == side_of(site.val, high[k]));
        lemma_follows_prefix(site.down(Side::Left), last, high[k]);
        assert(site.down(Side::Left).take(last) =~= site.trail);
    }
    assert forall|k: int| 0 <= k < low.len() implies under(#[trigger] low[k], site.val)
        && follows(site.trail, low[k]) by {
        assert(site.down(Side::Right)[last].side == side_of(site.val, low[k]));
        lemma_follows_prefix(site.down(Side::Right), last, low[k]);
        assert(site.down(Side::Right).take(last) =~= site.trail);
    }
    assert forall|k: int| 0 <= k < all.len() implies follows(site.trail, #[trigger] all[k]) by {
        if k < mid {
            assert(all[k] == high[k]);
        } else if k > mid {
            assert(all[k] == low[k - mid - 1]);
        }
    }
    assert forall|i: int, j: int| 0 <= i < j < all.len() implies !under(
        #[trigger] all[i],
        #[trigger] all[j],
    ) by {
        if j < mid {
            assert(all[i] == high[i] && all[j] == high[j]);
        } else if j == mid {
            assert(all[i] == high[i] && all[j] == site.val);
            assert(at_most(site.val, high[i]));
        } else if i < mid {
            assert(all[i] == high[i] && all[j] == low[j - mid - 1]);
            assert(at_most(site.val, high[i]));
            assert(under(low[j - mid - 1], site.val));
        } else if i == mid {
            assert(all[i] == site.val && all[j] == low[j - mid - 1]);
            assert(under(low[j - mid - 1], site.val));
        } else {
            assert(all[i] == low[i - mid - 1] && all[j] == low[j - mid - 1]);
        }
    }
}

/// What is visited to the left of a node is not under the node's value,
/// and what is visited to its right is.
pub proof fn lemma_parts<T: Ord>(site: Site<T>, high: Seq<T>, low: Seq<T>)
    requires
        vstd::laws_cmp::obeys_cmp::<T>(),
        forall|k: int| 0 <= k < high.len() ==> follows(site.down(Side::Left), #[trigger] high[k]),
        forall|k: int| 0 <= k < low.len() ==> follows(site.down(Side::Right), #[trigger] low[k]),
    ensures
        splits(high.push(site.val) + low, site.val, high, low),
        parted(high.push(site.val) + low, site.val),
{
    crate::order::lemma_order_laws::<T>();
    let last = site.depth();
    assert forall|k: int| 0 <= k < high.len() implies at_most(site.val, #[trigger] high[k]) by {
        assert(site.down(Side::Left)[last].side == side_of(site.val, high[k]));
    }
    assert forall|k: int| 0 <= k < low.len() implies under(#[trigger] low[k], site.val) by {
        assert(site.down(Side::Right)[last].side == side_of(site.val, low[k]));
    }
}

/// Every place lies within itself.
pub proof fn lemma_within_self<T: Ord>(site: Site<T>)
    ensures
        site.within(site),
{
    assert(site.trail.take(site.depth()) =~= site.trail);
}

/// The place of a child lies within the place of its parent.
pub proof fn lemma_within_child<T: Ord>(site: Site<T>, side: Side, child: Site<T>)
    requires
        child.trail == site.down(side),
    ensures
        child.within(site),
{
    assert(child.trail.take(site.depth()) =~= site.trail);
}

/// A place within a place within a third lies within the third.
pub proof fn lemma_within_chain<T: Ord>(low: Site<T>, mid: Site<T>, high: Site<T>)
    requires
        low.within(mid),
        mid.within(high),
    ensures
        low.within(high),
{
    let h = high.depth();
    let m = mid.depth();
    assert(low.trail.take(h) =~= low.trail.take(m).take(h));
    if m > h {
        assert(low.trail.take(m)[h] == low.trail[h]);
    }
}

} // verus!
