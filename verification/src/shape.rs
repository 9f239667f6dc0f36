//! The tree that the paths of one count trace out.
//!
//! Every index is resolved on its own, from `(count, n)` alone. The paths
//! nevertheless fit together: there is one tree for each count, it has one
//! leaf for each index, and the path of `n` is the route to its `n`-th leaf.

use crate::laws::path_set;
use crate::path::{half_capacity, lemma_half_capacity, lemma_path_step, path_spec, Side};
use crate::power::{ceil_log2, lemma_ceil_log2_of_pow2};
use vstd::arithmetic::power2::{lemma2_to64, lemma_pow2_pos, lemma_pow2_unfold, pow2};
use vstd::prelude::*;

verus! {

/// The shape of a nested two-variant sum type: a payload, or a choice
/// between two nested shapes.
pub enum Shape {
    Leaf,
    Fork(Box<Shape>, Box<Shape>),
}

/// The number of payloads in a shape.
pub open spec fn leaf_count(shape: Shape) -> nat
    decreases shape,
{
    match shape {
        Shape::Leaf => 1,
        Shape::Fork(left, right) => leaf_count(*left) + leaf_count(*right),
    }
}

/// The route from the root to the `n`-th leaf, counted from the left.
pub open spec fn route_to_leaf(shape: Shape, n: nat) -> Seq<Side>
    decreases shape,
{
    match shape {
        Shape::Leaf => Seq::empty(),
        Shape::Fork(left, right) => if n < leaf_count(*left) {
            seq![Side::Left] + route_to_leaf(*left, n)
        } else {
            seq![Side::Right] + route_to_leaf(*right, (n - leaf_count(*left)) as nat)
        },
    }
}

/// `route` leads from the root of `shape` to one of its leaves.
pub open spec fn ends_at_leaf(shape: Shape, route: Seq<Side>) -> bool
    decreases shape,
{
    match shape {
        Shape::Leaf => route.len() == 0,
        Shape::Fork(left, right) => route.len() > 0 && if route[0] == Side::Left {
            ends_at_leaf(*left, route.drop_first())
        } else {
            ends_at_leaf(*right, route.drop_first())
        },
    }
}

/// The number, counted from the left, of the leaf that `route` leads to.
pub open spec fn leaf_index(shape: Shape, route: Seq<Side>) -> nat
    decreases shape,
{
    match shape {
        Shape::Leaf => 0,
        Shape::Fork(left, right) => if route.len() == 0 {
            0
        } else if route[0] == Side::Left {
            leaf_index(*left, route.drop_first())
        } else {
            leaf_count(*left) + leaf_index(*right, route.drop_first())
        },
    }
}

/// The full tree in which every leaf lies `depth` steps below the root.
pub open spec fn perfect_shape(depth: nat) -> Shape
    decreases depth,
{
    if depth == 0 {
        Shape::Leaf
    } else {
        Shape::Fork(
            Box::new(perfect_shape((depth - 1) as nat)),
            Box::new(perfect_shape((depth - 1) as nat)),
        )
    }
}

/// The shape shared by all alternatives of one count.
pub open spec fn shape_of(count: nat) -> Shape
    decreases count,
    via shape_of_terminates
{
    if count <= 1 {
        Shape::Leaf
    } else {
        let half = half_capacity(count);
        Shape::Fork(Box::new(shape_of(half)), Box::new(shape_of((count - half) as nat)))
    }
}

#[via_fn]
proof fn shape_of_terminates(count: nat) {
    if count >= 2 {
        lemma_half_capacity(count);
    }
}

/// The shape of `count` alternatives has exactly `count` leaves.
pub proof fn lemma_shape_leaf_count(count: nat)
    requires
        count >= 1,
    ensures
        leaf_count(shape_of(count)) == count,
    decreases count,
{
    if count >= 2 {
        let half = half_capacity(count);
        lemma_half_capacity(count);
        lemma_shape_leaf_count(half);
        lemma_shape_leaf_count((count - half) as nat);
    }
}

/// The path of index `n` is the route to the `n`-th leaf of the shape of
/// `count`: the shape depends on the count alone, the index only selects
/// the leaf.
pub proof fn lemma_path_follows_shape(count: nat, n: nat)
    requires
        n < count,
    ensures
        path_spec(count, n) == route_to_leaf(shape_of(count), n),
    decreases count,
{
    if count >= 2 {
        let half = half_capacity(count);
        lemma_half_capacity(count);
        lemma_path_step(count, n);
        lemma_shape_leaf_count(half);
        if n < half {
            lemma_path_follows_shape(half, n);
        } else {
            lemma_path_follows_shape((count - half) as nat, (n - half) as nat);
        }
    }
}

/// The route to the `n`-th leaf ends at a leaf, and that leaf is the `n`-th.
pub proof fn lemma_route_leads_to_its_leaf(shape: Shape, n: nat)
    requires
        n < leaf_count(shape),
    ensures
        ends_at_leaf(shape, route_to_leaf(shape, n)),
        leaf_index(shape, route_to_leaf(shape, n)) == n,
    decreases shape,
{
    let route = route_to_leaf(shape, n);
    match shape {
        Shape::Leaf => {},
        Shape::Fork(left, right) => {
            if n < leaf_count(*left) {
                lemma_route_leads_to_its_leaf(*left, n);
                assert(route.drop_first() =~= route_to_leaf(*left, n));
            } else {
                let m = (n - leaf_count(*left)) as nat;
                lemma_route_leads_to_its_leaf(*right, m);
                assert(route.drop_first() =~= route_to_leaf(*right, m));
            }
        },
    }
}

/// A route that ends at a leaf is the route to the leaf that it ends at.
pub proof fn lemma_leaf_is_reached_by_its_route(shape: Shape, route: Seq<Side>)
    requires
        ends_at_leaf(shape, route),
    ensures
        leaf_index(shape, route) < leaf_count(shape),
        route_to_leaf(shape, leaf_index(shape, route)) == route,
    decreases shape,
{
    match shape {
        Shape::Leaf => {
            assert(route =~= Seq::<Side>::empty());
        },
        Shape::Fork(left, right) => {
            let rest = route.drop_first();
            if route[0] == Side::Left {
                lemma_leaf_is_reached_by_its_route(*left, rest);
                assert(route =~= seq![Side::Left] + rest);
            } else {
                lemma_leaf_is_reached_by_its_route(*right, rest);
                assert(route =~= seq![Side::Right] + rest);
            }
        },
    }
}

/// The paths of `count` alternatives are exactly the routes to the leaves of
/// its shape, and the index of a path is the number of the leaf it reaches:
/// indices and leaves correspond one to one.
pub proof fn lemma_paths_are_the_leaf_routes(count: nat, route: Seq<Side>)
    requires
        count >= 1,
    ensures
        path_set(count).contains(route) <==> ends_at_leaf(shape_of(count), route),
        ends_at_leaf(shape_of(count), route) ==> leaf_index(shape_of(count), route) < count
            && path_spec(count, leaf_index(shape_of(count), route)) == route,
        forall|n: nat|
            n < count ==> leaf_index(shape_of(count), #[trigger] path_spec(count, n)) == n,
{
    let shape = shape_of(count);
    lemma_shape_leaf_count(count);
    if ends_at_leaf(shape, route) {
        let n = leaf_index(shape, route);
        lemma_leaf_is_reached_by_its_route(shape, route);
        lemma_path_follows_shape(count, n);
        assert(path_set(count).contains(route));
    }
    if path_set(count).contains(route) {
        let n = choose|n: nat| n < count && route == #[trigger] path_spec(count, n);
        lemma_path_follows_shape(count, n);
        lemma_route_leads_to_its_leaf(shape, n);
    }
    assert forall|n: nat| n < count implies leaf_index(
        shape_of(count),
        #[trigger] path_spec(count, n),
    ) == n by {
        lemma_path_follows_shape(count, n);
        lemma_route_leads_to_its_leaf(shape, n);
    }
}

/// A power-of-two count gives the perfectly symmetric tree.
pub proof fn lemma_power_of_two_shape_is_perfect(depth: nat)
    ensures
        shape_of(pow2(depth)) == perfect_shape(depth),
    decreases depth,
{
    lemma2_to64();
    if depth >= 1 {
        let below = (depth - 1) as nat;
        lemma_pow2_unfold(depth);
        lemma_pow2_pos(below);
        lemma_ceil_log2_of_pow2(depth);
        lemma_half_capacity(pow2(depth));
        lemma_power_of_two_shape_is_perfect(below);
    }
}

/// Whatever the count, the left subtree is a perfect tree of
/// `half_capacity(count)` leaves; all irregularity is in the right subtree.
pub proof fn lemma_left_subtree_is_perfect(count: nat)
    requires
        count >= 2,
    ensures
        shape_of(count) == Shape::Fork(
            Box::new(perfect_shape((ceil_log2(count) - 1) as nat)),
            Box::new(shape_of((count - half_capacity(count)) as nat)),
        ),
{
    lemma_half_capacity(count);
    lemma_power_of_two_shape_is_perfect((ceil_log2(count) - 1) as nat);
}

} // verus!
