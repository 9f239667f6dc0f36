//! Routing paths through a tree of nested two-variant sum types.
//!
//! A call site that can produce one of `count` differently typed values wraps
//! alternative `n` in nested `Left`/`Right` variants so that every alternative
//! has the same static type. The nesting is a binary tree that depends on
//! `count` alone; this crate computes, for each `n`, the root-to-leaf route
//! through that tree, and proves that the routes of one `count` fit together.
//!
//! - `power`: the least power of two that is not below a number.
//! - `partition`: the lower and the upper half of a capacity.
//! - `path`: the route of one alternative.
//! - `laws`: length, distinctness and prefix-freedom of the routes of a count.
//! - `shape`: the one tree that the routes of a count trace out.
//! - `arguments`, `invocation`: the macro's argument list `count, n, payload`.

pub mod arguments;
pub mod invocation;
pub mod laws;
pub mod partition;
pub mod path;
pub mod power;
pub mod shape;

pub use arguments::{read_arguments, ArgToken, ArgumentError, Arguments, ARGUMENT_TOKENS};
pub use invocation::{future_union_impl, InvocationError};
pub use partition::first_half;
pub use path::{future_union_make_tree, future_union_path, PathError, Side};
pub use power::round_up_to_power_of_2;
