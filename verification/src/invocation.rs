//! One use of the macro, from its tokens to the path that wraps its payload.

use crate::arguments::{arguments_spec, read_arguments, ArgToken, ArgumentError};
use crate::path::{future_union_path, path_outcome, PathError, Side};
use vstd::prelude::*;

verus! {

/// Why a use of the macro cannot be expanded.
#[derive(Clone, Copy, Debug, PartialEq, Eq, Structural)]
pub enum InvocationError {
    /// The tokens are no argument list.
    Arguments(ArgumentError),
    /// The numbers name no alternative.
    Path(PathError),
}

/// The path that a row of tokens asks for. A fault in the argument list is
/// reported before the numbers are looked at.
pub open spec fn invocation_outcome(tokens: Seq<ArgToken>) -> Result<Seq<Side>, InvocationError> {
    match arguments_spec(tokens) {
        Err(e) => Err(InvocationError::Arguments(e)),
        Ok(arguments) => match path_outcome(arguments.count as nat, arguments.n as nat) {
            Err(e) => Err(InvocationError::Path(e)),
            Ok(path) => Ok(path),
        },
    }
}

/// Resolves one use of the macro: reads `count` and `n` from the head of the
/// tokens and computes the path that leads to alternative `n`. The caller
/// wraps the payload, the tokens from position `ARGUMENT_TOKENS` on, in the
/// variants of the path, the first step outermost.
pub fn future_union_impl(tokens: &[ArgToken]) -> (expansion: Result<Vec<Side>, InvocationError>)
    ensures
        match expansion {
            Ok(path) => invocation_outcome(tokens@) == Ok::<Seq<Side>, InvocationError>(path@),
            Err(e) => invocation_outcome(tokens@) == Err::<Seq<Side>, InvocationError>(e),
        },
{
    let arguments = match read_arguments(tokens) {
        Ok(arguments) => arguments,
        Err(e) => {
            return Err(InvocationError::Arguments(e));
        },
    };
    match future_union_path(arguments.count, arguments.n) {
        Ok(path) => Ok(path),
        Err(e) => Err(InvocationError::Path(e)),
    }
}

} // verus!
