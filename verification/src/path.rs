//! The route of one alternative through the tree of nested sum types.

use crate::laws::{lemma_path_length_bound, lemma_path_length_exact, reaches_full_depth};
use crate::partition::first_half;
use crate::power::{
    ceil_log2, is_power_of_two, lemma_ceil_log2_bounds, lemma_ceil_log2_least,
    lemma_ceil_log2_unique, pow2_ceiling, round_up_to_power_of_2, MAX_ROUNDABLE,
};
use vstd::arithmetic::power2::{
    lemma2_to64, lemma2_to64_rest, lemma_pow2_pos, lemma_pow2_unfold, pow2,
};
use vstd::prelude::*;

verus! {

/// Which variant of the two-variant sum type is chosen at one level of the tree.
#[derive(Clone, Copy, Debug, PartialEq, Eq, Structural)]
pub enum Side {
    Left,
    Right,
}

/// Why no path exists for a pair `(count, n)`.
#[derive(Clone, Copy, Debug, PartialEq, Eq, Structural)]
pub enum PathError {
    /// There are no alternatives at all: `count == 0`.
    InvalidCount,
    /// The index names no alternative: `n >= count`.
    IndexOutOfRange,
}

/// The size of the left subtree of a tree with `count >= 2` leaves: half of
/// the least power of two that is not below `count`.
pub open spec fn half_capacity(count: nat) -> nat {
    pow2_ceiling(count) / 2
}

/// The route, root first, to alternative `n` among `count` alternatives.
///
/// One alternative needs no wrapping. Two alternatives are the two variants
/// themselves. More are split into a left subtree of `half_capacity(count)`
/// leaves and a right subtree that takes the rest.
pub open spec fn path_spec(count: nat, n: nat) -> Seq<Side>
    decreases count,
    via path_spec_terminates
{
    if count <= 1 {
        Seq::empty()
    } else if count == 2 {
        if n % 2 == 0 {
            seq![Side::Left]
        } else {
            seq![Side::Right]
        }
    } else {
        let half = half_capacity(count);
        if n < half {
            seq![Side::Left] + path_spec(half, n)
        } else {
            seq![Side::Right] + path_spec((count - half) as nat, (n - half) as nat)
        }
    }
}

#[via_fn]
proof fn path_spec_terminates(count: nat, n: nat) {
    if count > 2 {
        lemma_half_capacity(count);
    }
}

/// What a path request yields: the path of a valid pair, or the reason why
/// the pair is not valid. A count of zero is reported before the index is
/// looked at.
pub open spec fn path_outcome(count: nat, n: nat) -> Result<Seq<Side>, PathError> {
    if count == 0 {
        Err(PathError::InvalidCount)
    } else if n >= count {
        Err(PathError::IndexOutOfRange)
    } else {
        Ok(path_spec(count, n))
    }
}

/// The mathematical content of an executable outcome.
pub open spec fn outcome_view(r: Result<Vec<Side>, PathError>) -> Result<Seq<Side>, PathError> {
    match r {
        Ok(path) => Ok(path@),
        Err(e) => Err(e),
    }
}

/// The left subtree of `count >= 2` leaves is a power of two, is not empty,
/// leaves at least one leaf to the right, and holds at least half the leaves.
pub proof fn lemma_half_capacity(count: nat)
    requires
        count >= 2,
    ensures
        ceil_log2(count) >= 1,
        half_capacity(count) == pow2((ceil_log2(count) - 1) as nat),
        pow2_ceiling(count) == 2 * half_capacity(count),
        is_power_of_two(half_capacity(count) as int),
        1 <= half_capacity(count) < count <= 2 * half_capacity(count),
{
    lemma_ceil_log2_bounds(count);
    lemma_pow2_unfold(ceil_log2(count));
    lemma_pow2_pos((ceil_log2(count) - 1) as nat);
}

/// Two alternatives follow the same rule as more than two: the first goes
/// left, the second goes right, and both subtrees are single leaves.
pub proof fn lemma_path_step(count: nat, n: nat)
    requires
        count >= 2,
        n < count,
    ensures
        n < half_capacity(count) ==> path_spec(count, n) == seq![Side::Left] + path_spec(
            half_capacity(count),
            n,
        ),
        n >= half_capacity(count) ==> path_spec(count, n) == seq![Side::Right] + path_spec(
            (count - half_capacity(count)) as nat,
            (n - half_capacity(count)) as nat,
        ),
{
    if count == 2 {
        lemma2_to64();
        lemma_ceil_log2_unique(2, 1);
        assert(half_capacity(2) == 1);
        assert(path_spec(1, n) =~= Seq::<Side>::empty());
        assert(path_spec(1, (n - 1) as nat) =~= Seq::<Side>::empty());
        assert(seq![Side::Left] + Seq::<Side>::empty() =~= seq![Side::Left]);
        assert(seq![Side::Right] + Seq::<Side>::empty() =~= seq![Side::Right]);
    }
}

/// Computes the route to alternative `n` among `count` alternatives.
///
/// The index has to name one of the alternatives. At each level the rest of
/// the alternatives is rounded up to a power of two; an index in the lower
/// half of that capacity goes left into a full subtree, any other goes right.
/// The path is never longer than `ceil_log2(count)`, and exactly that long
/// for the indices on the deepest level of the tree.
pub fn future_union_make_tree(count: u64, n: u64) -> (path: Vec<Side>)
    requires
        n < count,
    ensures
        path@ == path_spec(count as nat, n as nat),
        path@.len() <= ceil_log2(count as nat) <= 64,
        path@.len() == ceil_log2(count as nat) <==> reaches_full_depth(count as nat, n as nat),
        path@.len() == 0 <==> count == 1,
{
    let mut path: Vec<Side> = Vec::new();
    let mut rest: u64 = count;
    let mut index: u64 = n;
    if rest > MAX_ROUNDABLE {
        // The capacity of such a count is 2^64, which no `u64` holds; its
        // halves meet at 2^63.
        proof {
            lemma2_to64_rest();
            lemma_ceil_log2_unique(rest as nat, 64);
            assert(half_capacity(rest as nat) == MAX_ROUNDABLE);
        }
        if index < MAX_ROUNDABLE {
            path.push(Side::Left);
            rest = MAX_ROUNDABLE;
        } else {
            path.push(Side::Right);
            rest = rest - MAX_ROUNDABLE;
            index = index - MAX_ROUNDABLE;
        }
        assert(path@ + path_spec(rest as nat, index as nat) =~= path_spec(
            count as nat,
            n as nat,
        ));
    } else {
        assert(path@ + path_spec(rest as nat, index as nat) =~= path_spec(
            count as nat,
            n as nat,
        ));
    }
    while rest > 2
        invariant
            index < rest <= MAX_ROUNDABLE,
            path@ + path_spec(rest as nat, index as nat) == path_spec(count as nat, n as nat),
        decreases rest,
    {
        let ghost before = path@;
        let ghost tail = path_spec(rest as nat, index as nat);
        let max_cap = round_up_to_power_of_2(rest);
        proof {
            lemma_half_capacity(rest as nat);
        }
        if first_half(max_cap, index) {
            path.push(Side::Left);
            rest = max_cap / 2;
        } else {
            path.push(Side::Right);
            rest = rest - max_cap / 2;
            index = index - max_cap / 2;
        }
        assert(path@ + path_spec(rest as nat, index as nat) =~= before + tail);
    }
    if rest == 2 {
        assert((index & 1 == 0) == (index % 2 == 0)) by (bit_vector);
        if index & 1 == 0 {
            path.push(Side::Left);
        } else {
            path.push(Side::Right);
        }
    }
    assert(path@ =~= path_spec(count as nat, n as nat));
    proof {
        lemma2_to64_rest();
        lemma_ceil_log2_least(count as nat, 64);
        lemma_path_length_bound(count as nat, n as nat);
        lemma_path_length_exact(count as nat, n as nat);
    }
    path
}

/// Computes the route to alternative `n` among `count` alternatives, or says
/// why there is none: `InvalidCount` when there are no alternatives,
/// `IndexOutOfRange` when there are some and `n` names none of them.
pub fn future_union_path(count: u64, n: u64) -> (outcome: Result<Vec<Side>, PathError>)
    ensures
        outcome_view(outcome) == path_outcome(count as nat, n as nat),
        outcome is Ok <==> n < count,
        outcome == Err::<Vec<Side>, PathError>(PathError::InvalidCount) <==> count == 0,
        outcome == Err::<Vec<Side>, PathError>(PathError::IndexOutOfRange) <==> count > 0 && n
            >= count,
{
    if count == 0 {
        Err(PathError::InvalidCount)
    } else if n >= count {
        Err(PathError::IndexOutOfRange)
    } else {
        Ok(future_union_make_tree(count, n))
    }
}

} // verus!
