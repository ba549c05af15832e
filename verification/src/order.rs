//! The total order on stored values, and the two routing rules built on it.
//!
//! Values are compared through `Ord`. Everything here is stated over
//! `cmp_spec` and holds for every type whose comparison is a total order in
//! the sense of `vstd::laws_cmp::obeys_cmp`.

use std::cmp::Ordering;
use vstd::laws_cmp::obeys_cmp;
use vstd::prelude::*;
use vstd::std_specs::cmp::OrdSpec;
use vstd::std_specs::cmp::PartialOrdSpec;

verus! {

/// One of the two child slots of a node.
#[derive(Clone, Copy, PartialEq, Eq, Debug, Structural)]
pub enum Side {
    Left,
    Right,
}

/// `a` is not above `b`: `a <= b` in the order of `T`.
pub open spec fn at_most<T: Ord>(a: T, b: T) -> bool {
    a.cmp_spec(&b) != Ordering::Greater
}

/// `a` is strictly under `b`: `a < b` in the order of `T`.
pub open spec fn under<T: Ord>(a: T, b: T) -> bool {
    a.cmp_spec(&b) == Ordering::Less
}

/// `a` and `b` are the same point of the order.
pub open spec fn level<T: Ord>(a: T, b: T) -> bool {
    a.cmp_spec(&b) == Ordering::Equal
}

/// The slot that an inserted value `val` takes at a node holding `at`:
/// left when `at <= val`, right otherwise.
pub open spec fn side_of<T: Ord>(at: T, val: T) -> Side {
    if at_most(at, val) {
        Side::Left
    } else {
        Side::Right
    }
}

/// Where a lookup of `val` turns at a node holding `at`: nowhere when the
/// two are level, left when `at < val`, right when `at > val`.
pub open spec fn turn_of<T: Ord>(at: T, val: T) -> Option<Side> {
    if level(at, val) {
        None
    } else {
        Some(side_of(at, val))
    }
}

/// No value of `seq` is under one that comes after it: the values run from
/// the greatest to the least, level ones side by side.
pub open spec fn descending<T: Ord>(seq: Seq<T>) -> bool {
    forall|i: int, j: int| 0 <= i < j < seq.len() ==> !under(#[trigger] seq[i], #[trigger] seq[j])
}

/// `seq` is `high`, then `at`, then `low`, where no value of `high` is
/// under `at` and every value of `low` is.
pub open spec fn splits<T: Ord>(seq: Seq<T>, at: T, high: Seq<T>, low: Seq<T>) -> bool {
    &&& seq == high.push(at) + low
    &&& forall|i: int| 0 <= i < high.len() ==> at_most(at, #[trigger] high[i])
    &&& forall|j: int| 0 <= j < low.len() ==> under(#[trigger] low[j], at)
}

/// `seq` holds `at` between the values that are not under it, which come
/// first, and those that are, which come last.
pub open spec fn parted<T: Ord>(seq: Seq<T>, at: T) -> bool {
    exists|high: Seq<T>, low: Seq<T>| splits(seq, at, high, low)
}

/// No value of `seq` is under one that comes before it.
pub open spec fn ascending<T: Ord>(seq: Seq<T>) -> bool {
    forall|i: int, j: int| 0 <= i < j < seq.len() ==> !under(#[trigger] seq[j], #[trigger] seq[i])
}

/// All values of `seq` are level with one another.
pub open spec fn flat<T: Ord>(seq: Seq<T>) -> bool {
    forall|i: int, j: int|
        0 <= i < seq.len() && 0 <= j < seq.len() ==> level(#[trigger] seq[i], #[trigger] seq[j])
}

/// The facts about `cmp_spec` that follow from `obeys_cmp`, in the form in
/// which the rest of the crate uses them.
pub proof fn lemma_order_laws<T: Ord>()
    requires
        obeys_cmp::<T>(),
    ensures
        T::obeys_cmp_spec(),
        T::obeys_partial_cmp_spec(),
        forall|a: T, b: T|
            #![trigger a.cmp_spec(&b)]
            a.partial_cmp_spec(&b) == Some(a.cmp_spec(&b)),
        forall|a: T, b: T| #[trigger] under(a, b) <==> b.cmp_spec(&a) == Ordering::Greater,
        forall|a: T, b: T| #[trigger] level(a, b) <==> level(b, a),
        forall|a: T, b: T, c: T| #[trigger] under(a, b) && #[trigger] under(b, c) ==> under(a, c),
        forall|a: T, b: T, c: T| #[trigger] level(a, b) && #[trigger] level(b, c) ==> level(a, c),
{
    reveal(vstd::laws_cmp::obeys_cmp_ord);
    reveal(vstd::laws_cmp::obeys_cmp_partial_ord);
    reveal(vstd::laws_cmp::obeys_partial_cmp_spec_properties);
    reveal(vstd::laws_eq::obeys_eq_spec_properties);
    assert forall|a: T, b: T| #[trigger] under(a, b) <==> b.cmp_spec(&a) == Ordering::Greater by {
        assert(a.partial_cmp_spec(&b) == Some(a.cmp_spec(&b)));
        assert(b.partial_cmp_spec(&a) == Some(b.cmp_spec(&a)));
    }
    assert forall|a: T, b: T| #[trigger] level(a, b) <==> level(b, a) by {
        assert(a.partial_cmp_spec(&b) == Some(a.cmp_spec(&b)));
        assert(b.partial_cmp_spec(&a) == Some(b.cmp_spec(&a)));
    }
    assert forall|a: T, b: T, c: T| #[trigger] under(a, b) && #[trigger] under(b, c) implies under(
        a,
        c,
    ) by {
        assert(a.partial_cmp_spec(&b) == Some(a.cmp_spec(&b)));
        assert(b.partial_cmp_spec(&c) == Some(b.cmp_spec(&c)));
        assert(a.partial_cmp_spec(&c) == Some(a.cmp_spec(&c)));
    }
    assert forall|a: T, b: T, c: T| #[trigger] level(a, b) && #[trigger] level(b, c) implies level(
        a,
        c,
    ) by {
        assert(a.partial_cmp_spec(&b) == Some(a.cmp_spec(&b)));
        assert(b.partial_cmp_spec(&c) == Some(b.cmp_spec(&c)));
        assert(a.partial_cmp_spec(&c) == Some(a.cmp_spec(&c)));
    }
}

/// Every value is level with itself.
pub proof fn lemma_level_self<T: Ord>(a: T)
    requires
        obeys_cmp::<T>(),
    ensures
        level(a, a),
{
    lemma_order_laws::<T>();
    if under(a, a) {
        assert(a.cmp_spec(&a) == Ordering::Greater);
    }
}

/// Level values cannot be told apart by comparing them with a third.
pub proof fn lemma_level_swap<T: Ord>(a: T, b: T, c: T)
    requires
        obeys_cmp::<T>(),
        level(a, b),
    ensures
        a.cmp_spec(&c) == b.cmp_spec(&c),
        c.cmp_spec(&a) == c.cmp_spec(&b),
{
    lemma_order_laws::<T>();
    assert(level(b, a));
    if under(a, c) {
        if under(c, b) {
            assert(under(a, b));
        }
        if level(b, c) {
            assert(level(a, c));
        }
    } else if level(a, c) {
        assert(level(b, c));
    } else {
        assert(under(c, a));
        if under(b, c) {
            assert(under(b, a));
        }
        if level(b, c) {
            assert(level(c, b));
            assert(level(a, c));
        }
    }
    assert(under(c, a) <==> a.cmp_spec(&c) == Ordering::Greater);
    assert(under(c, b) <==> b.cmp_spec(&c) == Ordering::Greater);
    assert(under(a, c) <==> c.cmp_spec(&a) == Ordering::Greater);
    assert(under(b, c) <==> c.cmp_spec(&b) == Ordering::Greater);
    assert(level(a, c) <==> level(c, a));
    assert(level(b, c) <==> level(c, b));
}

/// Joining two descending runs round a value that parts them gives a
/// descending run: `high`, none of it under `at`, then `at`, then `low`,
/// all of it under `at`.
pub proof fn lemma_descending_join<T: Ord>(high: Seq<T>, at: T, low: Seq<T>)
    requires
        obeys_cmp::<T>(),
        descending(high),
        descending(low),
        splits(high.push(at) + low, at, high, low),
    ensures
        descending(high.push(at) + low),
{
    lemma_order_laws::<T>();
    let all = high.push(at) + low;
    let mid = high.push(at).len() - 1;
    assert forall|i: int, j: int| 0 <= i < j < all.len() implies !under(
        #[trigger] all[i],
        #[trigger] all[j],
    ) by {
        if j < mid {
            assert(all[i] == high[i] && all[j] == high[j]);
        } else if j == mid {
            assert(all[i] == high[i] && all[j] == at);
            assert(at_most(at, high[i]));
        } else if i < mid {
            assert(all[i] == high[i] && all[j] == low[j - mid - 1]);
            assert(at_most(at, high[i]));
            assert(under(low[j - mid - 1], at));
        } else if i == mid {
            assert(all[i] == at && all[j] == low[j - mid - 1]);
            assert(under(low[j - mid - 1], at));
        } else {
            assert(all[i] == low[i - mid - 1] && all[j] == low[j - mid - 1]);
        }
    }
}

/// A lookup that has to turn takes the side that an insertion of the same
/// value takes: the two rules part only where the values are level, and
/// there the insertion goes left.
pub proof fn lemma_turn_is_route<T: Ord>(at: T, val: T)
    ensures
        turn_of(at, val) matches Some(side) ==> side == side_of(at, val),
        turn_of(at, val) is None <==> level(at, val),
        level(at, val) ==> side_of(at, val) == Side::Left,
{
}

/// Two lookups of one value agree: values that are both level with `val`
/// are level with each other.
pub proof fn lemma_hits_agree<T: Ord>(first: T, second: T, val: T)
    requires
        obeys_cmp::<T>(),
        level(first, val),
        level(second, val),
    ensures
        level(first, second),
{
    lemma_order_laws::<T>();
    assert(level(val, second));
}

/// A descending sequence is ascending as well exactly when it is flat.
/// Since the values of a tree come out descending, they come out ascending
/// only where all of them are level.
pub proof fn lemma_ascending_iff_flat<T: Ord>(seq: Seq<T>)
    requires
        obeys_cmp::<T>(),
        descending(seq),
    ensures
        ascending(seq) <==> flat(seq),
{
    lemma_order_laws::<T>();
    if ascending(seq) {
        assert forall|i: int, j: int| 0 <= i < seq.len() && 0 <= j < seq.len() implies level(
            #[trigger] seq[i],
            #[trigger] seq[j],
        ) by {
            if i == j {
                lemma_level_self(seq[i]);
            } else if i < j {
                assert(!under(seq[i], seq[j]) && !under(seq[j], seq[i]));
            } else {
                assert(!under(seq[j], seq[i]) && !under(seq[i], seq[j]));
            }
        }
    }
    if flat(seq) {
        assert forall|i: int, j: int| 0 <= i < j < seq.len() implies !under(
            #[trigger] seq[j],
            #[trigger] seq[i],
        ) by {
            assert(level(seq[j], seq[i]));
        }
    }
}

/// Decides the slot for an insertion of `val` at a node holding `at`.
pub fn route<T: Ord>(at: &T, val: &T) -> (side: Side)
    requires
        obeys_cmp::<T>(),
    ensures
        side == side_of(*at, *val),
{
    proof {
        lemma_order_laws::<T>();
    }
    if *at <= *val {
        Side::Left
    } else {
        Side::Right
    }
}

/// Decides where a lookup of `val` goes on from a node holding `at`.
pub fn seek<T: Ord>(at: &T, val: &T) -> (turn: Option<Side>)
    requires
        obeys_cmp::<T>(),
    ensures
        turn == turn_of(*at, *val),
{
    proof {
        lemma_order_laws::<T>();
    }
    match at.cmp(val) {
        Ordering::Less => Some(Side::Left),
        Ordering::Equal => None,
        Ordering::Greater => Some(Side::Right),
    }
}

} // verus!
