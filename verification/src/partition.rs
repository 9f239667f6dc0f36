//! Splitting a capacity into a lower and an upper half.

use crate::power::{is_power_of_two, lemma_pow2_gap};
use vstd::arithmetic::power2::{lemma2_to64, lemma_pow2_unfold, pow2};
use vstd::prelude::*;
use vstd::set_lib::{lemma_int_range, set_int_range};

verus! {

/// Index `n` lies in the lower half `[0, cap / 2)` of the capacity `cap`.
pub open spec fn in_lower_half(cap: nat, n: nat) -> bool {
    n < cap / 2
}

/// The indices below `cap` that lie in the lower half.
pub open spec fn lower_indices(cap: nat) -> Set<int> {
    Set::new(|n: int| 0 <= n < cap && in_lower_half(cap, n as nat))
}

/// The indices below `cap` that lie in the upper half.
pub open spec fn upper_indices(cap: nat) -> Set<int> {
    Set::new(|n: int| 0 <= n < cap && !in_lower_half(cap, n as nat))
}

/// Tells whether index `n` falls in the lower half of the capacity `cap`.
///
/// The index has to lie within the capacity.
pub fn first_half(cap: u64, n: u64) -> (lower: bool)
    requires
        n < cap,
    ensures
        lower == in_lower_half(cap as nat, n as nat),
        lower <==> n < cap / 2,
{
    n < cap / 2
}

/// A power-of-two capacity `cap >= 2` is split evenly and contiguously: the
/// lower indices are exactly `[0, cap / 2)`, the upper indices are exactly
/// `[cap / 2, cap)`, and each half holds `cap / 2` indices.
pub proof fn lemma_half_partition_is_even(cap: nat)
    requires
        is_power_of_two(cap as int),
        cap >= 2,
    ensures
        lower_indices(cap) == set_int_range(0, (cap / 2) as int),
        upper_indices(cap) == set_int_range((cap / 2) as int, cap as int),
        lower_indices(cap).finite(),
        upper_indices(cap).finite(),
        lower_indices(cap).len() == cap / 2,
        upper_indices(cap).len() == cap / 2,
        forall|a: int, b: int|
            lower_indices(cap).contains(a) && upper_indices(cap).contains(b) ==> a < b,
{
    let e = choose|e: nat| cap as int == #[trigger] pow2(e);
    lemma2_to64();
    lemma_pow2_gap(0, e);
    lemma_pow2_unfold(e);
    let half = (cap / 2) as int;
    assert(cap - half == half);
    assert(lower_indices(cap) =~= set_int_range(0, half));
    assert(upper_indices(cap) =~= set_int_range(half, cap as int));
    lemma_int_range(0, half);
    lemma_int_range(half, cap as int);
}

} // verus!
