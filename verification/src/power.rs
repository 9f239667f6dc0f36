//! Powers of two: the least power of two that is not below a given number.

use vstd::arithmetic::power2::{
    lemma2_to64, lemma2_to64_rest, lemma_pow2_pos, lemma_pow2_strictly_increases,
    lemma_pow2_unfold, pow2,
};
use vstd::prelude::*;

verus! {

/// The largest argument whose power-of-two ceiling still fits in a `u64`: 2^63.
pub const MAX_ROUNDABLE: u64 = 0x8000_0000_0000_0000;

/// `p` is 2^e for some natural number `e`.
pub open spec fn is_power_of_two(p: int) -> bool {
    exists|e: nat| p == #[trigger] pow2(e)
}

/// The least exponent `e` with `x <= 2^e`.
pub open spec fn ceil_log2(x: nat) -> nat
    decreases x,
{
    if x <= 1 {
        0
    } else {
        1 + ceil_log2((x + 1) / 2)
    }
}

/// The least power of two that is not below `x`.
pub open spec fn pow2_ceiling(x: nat) -> nat {
    pow2(ceil_log2(x))
}

/// `pow2` is monotone.
pub proof fn lemma_pow2_monotone(a: nat, b: nat)
    requires
        a <= b,
    ensures
        pow2(a) <= pow2(b),
{
    if a < b {
        lemma_pow2_strictly_increases(a, b);
    }
}

/// A larger power of two has a larger exponent.
pub proof fn lemma_pow2_exponent_order(a: nat, b: nat)
    requires
        pow2(a) < pow2(b),
    ensures
        a < b,
{
    if b <= a {
        lemma_pow2_monotone(b, a);
    }
}

/// Between a power of two and its double there is no other power of two:
/// a power of two below `2^b` is at most half of it.
pub proof fn lemma_pow2_gap(a: nat, b: nat)
    requires
        pow2(a) < pow2(b),
    ensures
        a < b,
        2 * pow2(a) <= pow2(b),
        pow2(a) <= pow2((b - 1) as nat),
{
    lemma_pow2_exponent_order(a, b);
    lemma_pow2_unfold(b);
    lemma_pow2_monotone(a, (b - 1) as nat);
}

/// `ceil_log2(x)` is an exponent whose power reaches `x`, and the exponent
/// below it does not.
pub proof fn lemma_ceil_log2_bounds(x: nat)
    requires
        x >= 1,
    ensures
        x <= pow2(ceil_log2(x)),
        x >= 2 ==> ceil_log2(x) >= 1 && pow2((ceil_log2(x) - 1) as nat) < x,
    decreases x,
{
    lemma2_to64();
    if x >= 2 {
        let h = (x + 1) / 2;
        let l = ceil_log2(h);
        lemma_ceil_log2_bounds(h);
        lemma_pow2_unfold(l + 1);
        if h >= 2 {
            lemma_pow2_unfold(l);
        }
    }
}

/// Any exponent that reaches `x` and whose predecessor does not is `ceil_log2(x)`.
pub proof fn lemma_ceil_log2_unique(x: nat, e: nat)
    requires
        x >= 1,
        x <= pow2(e),
        e >= 1 ==> pow2((e - 1) as nat) < x,
    ensures
        e == ceil_log2(x),
{
    let l = ceil_log2(x);
    lemma_ceil_log2_bounds(x);
    lemma2_to64();
    if e < l {
        lemma_pow2_monotone(e, (l - 1) as nat);
    } else if l < e {
        lemma_pow2_monotone(l, (e - 1) as nat);
    }
}

/// `ceil_log2` is the least exponent that reaches `x`.
pub proof fn lemma_ceil_log2_least(x: nat, e: nat)
    requires
        x >= 1,
        x <= pow2(e),
    ensures
        ceil_log2(x) <= e,
{
    let l = ceil_log2(x);
    lemma_ceil_log2_bounds(x);
    lemma2_to64();
    if e < l {
        lemma_pow2_monotone(e, (l - 1) as nat);
    }
}

/// The ceiling of a power of two is that power itself.
pub proof fn lemma_ceil_log2_of_pow2(e: nat)
    ensures
        ceil_log2(pow2(e)) == e,
        pow2_ceiling(pow2(e)) == pow2(e),
{
    lemma_pow2_pos(e);
    if e >= 1 {
        lemma_pow2_strictly_increases((e - 1) as nat, e);
    }
    lemma_ceil_log2_unique(pow2(e), e);
}

/// For every `x >= 1`, `pow2_ceiling(x)` is a power of two, is not below `x`,
/// and is the least such number: every power of two that is not below `x` is
/// at least `pow2_ceiling(x)`, so none lies in `[x, pow2_ceiling(x))`. Rounding
/// a second time changes nothing.
pub proof fn lemma_pow2_ceiling_is_least_power(x: nat)
    requires
        x >= 1,
    ensures
        is_power_of_two(pow2_ceiling(x) as int),
        pow2_ceiling(x) >= x,
        forall|p: int| is_power_of_two(p) && p >= x ==> pow2_ceiling(x) <= p,
        forall|q: int| x <= q < pow2_ceiling(x) ==> !is_power_of_two(q),
        pow2_ceiling(pow2_ceiling(x)) == pow2_ceiling(x),
        is_power_of_two(x as int) ==> pow2_ceiling(x) == x,
{
    let l = ceil_log2(x);
    lemma_ceil_log2_bounds(x);
    assert(is_power_of_two(pow2(l) as int));
    assert forall|p: int| is_power_of_two(p) && p >= x implies pow2_ceiling(x) <= p by {
        let e = choose|e: nat| p == #[trigger] pow2(e);
        lemma_ceil_log2_least(x, e);
        lemma_pow2_monotone(l, e);
    }
    lemma_ceil_log2_of_pow2(l);
    if is_power_of_two(x as int) {
        let e = choose|e: nat| x as int == #[trigger] pow2(e);
        lemma_ceil_log2_of_pow2(e);
    }
}

/// Rounds `n` up to the nearest power of two.
///
/// The result is exact for every `n` whose ceiling fits in a `u64`, that is
/// for `1 <= n <= 2^63`.
pub fn round_up_to_power_of_2(n: u64) -> (cap: u64)
    requires
        1 <= n <= MAX_ROUNDABLE,
    ensures
        is_power_of_two(cap as int),
        cap >= n,
        forall|p: int| is_power_of_two(p) && p >= n ==> cap <= p,
        is_power_of_two(n as int) ==> cap == n,
        cap == pow2_ceiling(n as nat),
{
    let mut cap: u64 = 1;
    let ghost mut e: nat = 0;
    proof {
        lemma2_to64();
    }
    while cap < n
        invariant
            1 <= n <= MAX_ROUNDABLE,
            cap == pow2(e),
            e <= 63,
            e >= 1 ==> pow2((e - 1) as nat) < n,
        decreases 63 - e,
    {
        proof {
            lemma2_to64_rest();
            lemma_pow2_gap(e, 63);
            lemma_pow2_unfold(e + 1);
        }
        cap = cap * 2;
        proof {
            e = e + 1;
        }
    }
    proof {
        lemma_ceil_log2_unique(n as nat, e);
        lemma_pow2_ceiling_is_least_power(n as nat);
    }
    cap
}

} // verus!
