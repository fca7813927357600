//! How the items of a node are shared between the two sides of a split plane,
//! and when such a split is balanced enough to keep.
use vstd::prelude::*;

verus! {

/// The side of a split plane on which an item falls.
#[derive(Debug, Clone, Copy, PartialEq, Eq, Structural)]
pub enum Side {
    Left,
    Right,
}

/// The larger of two counts.
pub open spec fn larger(l: nat, r: nat) -> nat {
    if l >= r {
        l
    } else {
        r
    }
}

/// The imbalance of a split, `max(l, r) / (l + r)`, is below `num / den`.
/// An empty split counts as wholly imbalanced.
pub open spec fn imbalance_below(l: nat, r: nat, num: nat, den: nat) -> bool {
    l + r > 0 && den * larger(l, r) < num * (l + r)
}

/// The imbalance of a split, `max(l, r) / (l + r)`, is above `num / den`.
/// An empty split counts as wholly imbalanced.
pub open spec fn imbalance_above(l: nat, r: nat, num: nat, den: nat) -> bool {
    l + r == 0 || den * larger(l, r) > num * (l + r)
}

/// A split whose imbalance is below 0.95: it is kept at once.
pub fn split_is_balanced(left: usize, right: usize) -> (r: bool)
    ensures
        r == imbalance_below(left as nat, right as nat, 95, 100),
{
    let l = left as u128;
    let rt = right as u128;
    let m = if l >= rt {
        l
    } else {
        rt
    };
    l + rt > 0 && 100 * m < 95 * (l + rt)
}

/// A split whose imbalance is above 0.99: its items are shared at random instead.
pub fn split_is_degenerate(left: usize, right: usize) -> (r: bool)
    ensures
        r == imbalance_above(left as nat, right as nat, 99, 100),
{
    let l = left as u128;
    let rt = right as u128;
    let m = if l >= rt {
        l
    } else {
        rt
    };
    l + rt == 0 || 100 * m > 99 * (l + rt)
}

/// A split that is not degenerate leaves at least one item on each side.
pub proof fn lemma_kept_split_has_two_sides(l: nat, r: nat)
    requires
        !imbalance_above(l, r, 99, 100),
    ensures
        l >= 1,
        r >= 1,
{
}

/// The items of `ids` whose side is `side`, in their order.
pub open spec fn on_side(ids: Seq<u32>, sides: Seq<Side>, side: Side) -> Seq<u32>
    decreases ids.len(),
{
    if ids.len() == 0 || sides.len() == 0 {
        Seq::empty()
    } else if sides[ids.len() - 1] == side {
        on_side(ids.drop_last(), sides, side).push(ids.last())
    } else {
        on_side(ids.drop_last(), sides, side)
    }
}

proof fn lemma_on_side_from(ids: Seq<u32>, sides: Seq<Side>, side: Side)
    ensures
        forall|k: int|
            0 <= k < on_side(ids, sides, side).len() ==> ids.contains(
                #[trigger] on_side(ids, sides, side)[k],
            ),
        on_side(ids, sides, side).len() <= ids.len(),
    decreases ids.len(),
{
    if ids.len() > 0 && sides.len() > 0 {
        let p = ids.drop_last();
        lemma_on_side_from(p, sides, side);
        assert forall|k: int|
            0 <= k < on_side(ids, sides, side).len() implies ids.contains(
                #[trigger] on_side(ids, sides, side)[k],
            ) by {
            if k < on_side(p, sides, side).len() {
                let x = on_side(p, sides, side)[k];
                let j = choose|j: int| 0 <= j < p.len() && p[j] == x;
                assert(ids[j] == x);
            } else {
                assert(ids[ids.len() - 1] == ids.last());
            }
        }
    }
}

/// Shares `ids` between the two sides: `sides[i]` is the side of `ids[i]`.
/// Each side keeps the order of `ids`.
pub fn partition_by_side(ids: &Vec<u32>, sides: &Vec<Side>) -> (r: (Vec<u32>, Vec<u32>))
    requires
        sides@.len() == ids@.len(),
    ensures
        r.0@ == on_side(ids@, sides@, Side::Left),
        r.1@ == on_side(ids@, sides@, Side::Right),
        r.0@.len() + r.1@.len() == ids@.len(),
        forall|k: int| 0 <= k < r.0@.len() ==> ids@.contains(#[trigger] r.0@[k]),
        forall|k: int| 0 <= k < r.1@.len() ==> ids@.contains(#[trigger] r.1@[k]),
{
    let mut left: Vec<u32> = Vec::new();
    let mut right: Vec<u32> = Vec::new();
    let mut i: usize = 0;
    while i < ids.len()
        invariant
            i <= ids@.len(),
            sides@.len() == ids@.len(),
            left@ == on_side(ids@.take(i as int), sides@, Side::Left),
            right@ == on_side(ids@.take(i as int), sides@, Side::Right),
            left@.len() + right@.len() == i,
        decreases ids@.len() - i,
    {
        proof {
            assert(ids@.take(i + 1).drop_last() =~= ids@.take(i as int));
        }
        match sides[i] {
            Side::Left => left.push(ids[i]),
            Side::Right => right.push(ids[i]),
        }
        i = i + 1;
    }
    assert(ids@.take(i as int) =~= ids@);
    proof {
        lemma_on_side_from(ids@, sides@, Side::Left);
        lemma_on_side_from(ids@, sides@, Side::Right);
    }
    (left, right)
}

} // verus!
