//! What holds of the paths of one count taken together: how long they are,
//! that they are pairwise distinct and that none begins another.

use crate::path::{
    half_capacity, lemma_half_capacity, lemma_path_step, outcome_view, path_outcome, path_spec,
    PathError, Side,
};
use crate::power::{
    ceil_log2, is_power_of_two, lemma_ceil_log2_least, lemma_ceil_log2_of_pow2,
    lemma_ceil_log2_unique, lemma_pow2_ceiling_is_least_power, lemma_pow2_gap, pow2_ceiling,
};
use vstd::arithmetic::power2::{lemma2_to64, lemma_pow2_unfold, pow2};
use vstd::prelude::*;
use vstd::relations::injective_on;
use vstd::set_lib::{lemma_int_range, lemma_map_size, set_int_range};

verus! {

/// Two outcomes for the same pair `(count, n)` agree: both are the same path,
/// or both are the same error.
pub proof fn lemma_outcome_is_deterministic(
    count: nat,
    n: nat,
    first: Result<Vec<Side>, PathError>,
    second: Result<Vec<Side>, PathError>,
)
    requires
        outcome_view(first) == path_outcome(count, n),
        outcome_view(second) == path_outcome(count, n),
    ensures
        outcome_view(first) == outcome_view(second),
        first is Ok <==> second is Ok,
        first is Ok ==> first->Ok_0@ == second->Ok_0@,
        first is Err ==> first->Err_0 == second->Err_0,
{
}

/// No path of `count` alternatives is longer than `ceil_log2(count)`, and
/// with more than one alternative none is empty.
pub proof fn lemma_path_length_bound(count: nat, n: nat)
    requires
        count >= 1,
        n < count,
    ensures
        path_spec(count, n).len() <= ceil_log2(count),
        count >= 2 ==> path_spec(count, n).len() >= 1,
        count == 1 ==> path_spec(count, n).len() == 0,
    decreases count,
{
    if count >= 2 {
        let half = half_capacity(count);
        let below = (ceil_log2(count) - 1) as nat;
        lemma_path_step(count, n);
        lemma_half_capacity(count);
        if n < half {
            lemma_path_length_bound(half, n);
            lemma_ceil_log2_of_pow2(below);
        } else {
            let rest = (count - half) as nat;
            lemma_path_length_bound(rest, (n - half) as nat);
            lemma_ceil_log2_least(rest, below);
        }
    }
}

/// Alternative `n` lies on the deepest level of the tree of `count` leaves.
///
/// That level is complete when `count` is a power of two. Otherwise it holds
/// the indices below the largest number of the form `capacity - 2^j` that is
/// still below `count`, where `capacity` is `pow2_ceiling(count)`.
pub open spec fn reaches_full_depth(count: nat, n: nat) -> bool {
    is_power_of_two(count as int) || exists|j: nat|
        n + #[trigger] pow2(j) < pow2_ceiling(count) && pow2_ceiling(count) <= count - 1 + pow2(j)
}

/// A path has the full length `ceil_log2(count)` exactly for the indices on
/// the deepest level.
pub proof fn lemma_path_length_exact(count: nat, n: nat)
    requires
        count >= 1,
        n < count,
    ensures
        path_spec(count, n).len() == ceil_log2(count) <==> reaches_full_depth(count, n),
    decreases count,
{
    let l = ceil_log2(count);
    let cap = pow2_ceiling(count);
    lemma2_to64();
    if count == 1 {
        assert(count as int == pow2(0));
    } else {
        let half = half_capacity(count);
        let below = (l - 1) as nat;
        lemma_path_step(count, n);
        lemma_half_capacity(count);
        lemma_ceil_log2_of_pow2(below);
        lemma_pow2_ceiling_is_least_power(count);
        if n < half {
            lemma_path_length_exact(half, n);
            assert(n + pow2(below) < cap && cap <= count - 1 + pow2(below));
        } else {
            let rest = (count - half) as nat;
            let m = (n - half) as nat;
            lemma_path_length_exact(rest, m);
            lemma_path_length_bound(rest, m);
            lemma_ceil_log2_least(rest, below);
            lemma_pow2_ceiling_is_least_power(rest);
            if reaches_full_depth(count, n) {
                if is_power_of_two(count as int) {
                    assert(rest == half);
                } else {
                    let j = choose|j: nat|
                        n + #[trigger] pow2(j) < cap && cap <= count - 1 + pow2(j);
                    lemma_pow2_gap(j, below);
                    lemma_pow2_unfold(below);
                    lemma_ceil_log2_unique(rest, below);
                    assert(m + pow2(j) < pow2_ceiling(rest) && pow2_ceiling(rest) <= rest - 1
                        + pow2(j));
                }
                assert(ceil_log2(rest) == below && reaches_full_depth(rest, m));
            }
            if ceil_log2(rest) == below && reaches_full_depth(rest, m) {
                if is_power_of_two(rest as int) {
                    assert(count == 2 * half);
                    lemma_pow2_unfold(l);
                    assert(count as int == pow2(l));
                } else {
                    let j = choose|j: nat|
                        m + #[trigger] pow2(j) < pow2_ceiling(rest) && pow2_ceiling(rest) <= rest
                            - 1 + pow2(j);
                    assert(n + pow2(j) < cap && cap <= count - 1 + pow2(j));
                }
                assert(reaches_full_depth(count, n));
            }
        }
    }
}

/// The path of an index on the deepest level has length `ceil_log2(count)`;
/// for a single alternative that is the empty path.
pub proof fn lemma_path_length_is_log(count: nat, n: nat)
    requires
        count >= 1,
        n < count,
        reaches_full_depth(count, n),
    ensures
        count > 1 ==> path_spec(count, n).len() == ceil_log2(count),
        count == 1 ==> path_spec(count, n).len() == 0,
{
    lemma_path_length_exact(count, n);
}

/// The path of any other index is shorter than `ceil_log2(count)`.
pub proof fn lemma_path_length_below_log(count: nat, n: nat)
    requires
        count >= 1,
        n < count,
        !reaches_full_depth(count, n),
    ensures
        1 <= path_spec(count, n).len() < ceil_log2(count),
{
    lemma_path_length_exact(count, n);
    lemma_path_length_bound(count, n);
    if count == 1 {
        lemma2_to64();
        assert(count as int == pow2(0));
    }
}

/// Every index of the left subtree lies on the deepest level, and with a
/// power-of-two count every index does.
pub proof fn lemma_full_depth_indices(count: nat, n: nat)
    requires
        count >= 2,
        n < count,
        n < half_capacity(count) || is_power_of_two(count as int),
    ensures
        path_spec(count, n).len() == ceil_log2(count),
{
    lemma_half_capacity(count);
    if !is_power_of_two(count as int) {
        let below = (ceil_log2(count) - 1) as nat;
        assert(n + pow2(below) < pow2_ceiling(count) && pow2_ceiling(count) <= count - 1 + pow2(
            below,
        ));
    }
    lemma_path_length_exact(count, n);
}

/// Putting the same step in front of two paths does not change whether one
/// begins the other.
proof fn lemma_prefix_behind_step(step: Side, a: Seq<Side>, b: Seq<Side>)
    ensures
        (seq![step] + a).is_prefix_of(seq![step] + b) <==> a.is_prefix_of(b),
{
    let sa = seq![step] + a;
    let sb = seq![step] + b;
    if sa.is_prefix_of(sb) {
        assert forall|i: int| 0 <= i < a.len() implies a[i] == b.subrange(0, a.len() as int)[i] by {
            assert(sa[i + 1] == sb.subrange(0, sa.len() as int)[i + 1]);
        }
        assert(a =~= b.subrange(0, a.len() as int));
    }
    if a.is_prefix_of(b) {
        assert forall|i: int| 0 <= i < sa.len() implies sa[i] == sb.subrange(0, sa.len() as int)[i] by {
            if i > 0 {
                assert(a[i - 1] == b.subrange(0, a.len() as int)[i - 1]);
            }
        }
        assert(sa =~= sb.subrange(0, sa.len() as int));
    }
}

/// The paths of two different indices of one count are prefix-free: neither
/// is the beginning of the other.
pub proof fn lemma_paths_prefix_free(count: nat, a: nat, b: nat)
    requires
        a < count,
        b < count,
        a != b,
    ensures
        !path_spec(count, a).is_prefix_of(path_spec(count, b)),
    decreases count,
{
    let half = half_capacity(count);
    let pa = path_spec(count, a);
    let pb = path_spec(count, b);
    lemma_path_step(count, a);
    lemma_path_step(count, b);
    lemma_half_capacity(count);
    if a < half && b < half {
        lemma_paths_prefix_free(half, a, b);
        lemma_prefix_behind_step(Side::Left, path_spec(half, a), path_spec(half, b));
    } else if a >= half && b >= half {
        let rest = (count - half) as nat;
        let ma = (a - half) as nat;
        let mb = (b - half) as nat;
        lemma_paths_prefix_free(rest, ma, mb);
        lemma_prefix_behind_step(Side::Right, path_spec(rest, ma), path_spec(rest, mb));
    } else {
        if pa.is_prefix_of(pb) {
            assert(pa[0] == pb.subrange(0, pa.len() as int)[0]);
        }
    }
}

/// Different indices of one count have different paths.
pub proof fn lemma_paths_distinct(count: nat, a: nat, b: nat)
    requires
        a < count,
        b < count,
        a != b,
    ensures
        path_spec(count, a) != path_spec(count, b),
{
    let pa = path_spec(count, a);
    lemma_paths_prefix_free(count, a, b);
    assert(pa =~= pa.subrange(0, pa.len() as int));
}

/// All the paths of one count.
pub open spec fn path_set(count: nat) -> Set<Seq<Side>> {
    Set::new(|p: Seq<Side>| exists|n: nat| n < count && p == #[trigger] path_spec(count, n))
}

/// The paths of `count` alternatives are exactly `count` in number.
pub proof fn lemma_path_set_size(count: nat)
    ensures
        path_set(count).finite(),
        path_set(count).len() == count,
{
    let indices = set_int_range(0, count as int);
    let route = |i: int| path_spec(count, i as nat);
    lemma_int_range(0, count as int);
    assert forall|x: int, y: int|
        indices.contains(x) && indices.contains(y) && #[trigger] route(x) == #[trigger] route(
            y,
        ) implies x == y by {
        if x != y {
            lemma_paths_distinct(count, x as nat, y as nat);
        }
    }
    assert(injective_on(route, indices));
    assert forall|p: Seq<Side>| path_set(count).contains(p) implies indices.map(route).contains(
        p,
    ) by {
        let n = choose|n: nat| n < count && p == #[trigger] path_spec(count, n);
        assert(indices.contains(n as int) && p == route(n as int));
    }
    assert forall|p: Seq<Side>| indices.map(route).contains(p) implies path_set(count).contains(
        p,
    ) by {
        let i = choose|i: int| indices.contains(i) && p == route(i);
        assert(p == path_spec(count, i as nat));
    }
    assert(indices.map(route) =~= path_set(count));
    lemma_map_size(indices, path_set(count), route);
}

} // verus!
