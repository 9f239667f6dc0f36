//! The arguments of one use of the macro: `count , n , payload`.
//!
//! The macro is handed a row of tokens. The first four have to be an integer,
//! a comma, an integer and a comma; whatever follows is the payload, which is
//! wrapped and never looked into.

use vstd::prelude::*;

verus! {

/// What the argument reader needs to know of one token.
#[derive(Clone, Copy, Debug, PartialEq, Eq, Structural)]
pub enum ArgToken {
    /// An integer literal, with its value.
    Integer(u64),
    /// The punctuation `,`.
    Comma,
    /// Anything else.
    Other,
}

/// Why a row of tokens is no argument list.
#[derive(Clone, Copy, Debug, PartialEq, Eq, Structural)]
pub enum ArgumentError {
    /// The row ends before the second comma.
    TooFewArguments,
    /// The count or the index is not an integer literal.
    ExpectedInteger,
    /// The count or the index is not followed by a comma.
    ExpectedComma,
}

/// The two numbers in front of the payload.
#[derive(Clone, Copy, Debug, PartialEq, Eq, Structural)]
pub struct Arguments {
    /// How many alternatives there are.
    pub count: u64,
    /// Which of them the payload is.
    pub n: u64,
}

/// The number of tokens in front of the payload.
pub const ARGUMENT_TOKENS: usize = 4;

/// Position `i` of the row holds what an argument list has there: an integer
/// at an even position, a comma at an odd one.
pub open spec fn token_fits(tokens: Seq<ArgToken>, i: int) -> bool {
    0 <= i < tokens.len() && if i % 2 == 0 {
        tokens[i] is Integer
    } else {
        tokens[i] == ArgToken::Comma
    }
}

/// What is wrong at a position that does not fit.
pub open spec fn misfit_error(tokens: Seq<ArgToken>, i: int) -> ArgumentError {
    if i >= tokens.len() {
        ArgumentError::TooFewArguments
    } else if i % 2 == 0 {
        ArgumentError::ExpectedInteger
    } else {
        ArgumentError::ExpectedComma
    }
}

/// The first of the leading positions that does not fit, or
/// `ARGUMENT_TOKENS` if all of them fit.
pub open spec fn first_misfit(tokens: Seq<ArgToken>) -> int {
    if !token_fits(tokens, 0) {
        0
    } else if !token_fits(tokens, 1) {
        1
    } else if !token_fits(tokens, 2) {
        2
    } else if !token_fits(tokens, 3) {
        3
    } else {
        ARGUMENT_TOKENS as int
    }
}

/// The arguments that a row of tokens begins with, or what is wrong at the
/// first position that does not fit.
pub open spec fn arguments_spec(tokens: Seq<ArgToken>) -> Result<Arguments, ArgumentError> {
    let at = first_misfit(tokens);
    if at == ARGUMENT_TOKENS {
        Ok(Arguments { count: tokens[0]->Integer_0, n: tokens[2]->Integer_0 })
    } else {
        Err(misfit_error(tokens, at))
    }
}

impl ArgumentError {
    /// The complaint shown to the user of the macro.
    pub fn message(&self) -> (text: String)
        ensures
            *self == ArgumentError::TooFewArguments ==> text@ == "Too few arguments"@,
            *self == ArgumentError::ExpectedInteger ==> text@ == "Expecting integer literal"@,
            *self == ArgumentError::ExpectedComma ==> text@
                == "Invalid syntax, expected a comma"@,
    {
        match self {
            ArgumentError::TooFewArguments => "Too few arguments".to_owned(),
            ArgumentError::ExpectedInteger => "Expecting integer literal".to_owned(),
            ArgumentError::ExpectedComma => "Invalid syntax, expected a comma".to_owned(),
        }
    }
}

/// The integer at the even position `i`.
fn integer_at(tokens: &[ArgToken], i: usize) -> (found: Result<u64, ArgumentError>)
    requires
        i % 2 == 0,
    ensures
        token_fits(tokens@, i as int) ==> found == Ok::<u64, ArgumentError>(
            tokens@[i as int]->Integer_0,
        ),
        !token_fits(tokens@, i as int) ==> found == Err::<u64, ArgumentError>(
            misfit_error(tokens@, i as int),
        ),
{
    if i >= tokens.len() {
        return Err(ArgumentError::TooFewArguments);
    }
    match tokens[i] {
        ArgToken::Integer(value) => Ok(value),
        _ => Err(ArgumentError::ExpectedInteger),
    }
}

/// The comma at the odd position `i`.
fn comma_at(tokens: &[ArgToken], i: usize) -> (found: Result<(), ArgumentError>)
    requires
        i % 2 == 1,
    ensures
        token_fits(tokens@, i as int) ==> found is Ok,
        !token_fits(tokens@, i as int) ==> found == Err::<(), ArgumentError>(
            misfit_error(tokens@, i as int),
        ),
{
    if i >= tokens.len() {
        return Err(ArgumentError::TooFewArguments);
    }
    match tokens[i] {
        ArgToken::Comma => Ok(()),
        _ => Err(ArgumentError::ExpectedComma),
    }
}

/// Reads the count and the index from the head of a row of tokens.
///
/// The row is read from the left and the first fault is reported: a missing
/// token as `TooFewArguments`, a token that is no integer where one belongs
/// as `ExpectedInteger`, one that is no comma where one belongs as
/// `ExpectedComma`. Tokens behind the second comma are the payload and are
/// not looked at.
pub fn read_arguments(tokens: &[ArgToken]) -> (read: Result<Arguments, ArgumentError>)
    ensures
        read == arguments_spec(tokens@),
        read is Ok <==> tokens@.len() >= ARGUMENT_TOKENS && tokens@[0] is Integer && tokens@[1]
            == ArgToken::Comma && tokens@[2] is Integer && tokens@[3] == ArgToken::Comma,
{
    let count = match integer_at(tokens, 0) {
        Ok(value) => value,
        Err(e) => {
            return Err(e);
        },
    };
    match comma_at(tokens, 1) {
        Ok(()) => {},
        Err(e) => {
            return Err(e);
        },
    }
    let n = match integer_at(tokens, 2) {
        Ok(value) => value,
        Err(e) => {
            return Err(e);
        },
    };
    match comma_at(tokens, 3) {
        Ok(()) => {},
        Err(e) => {
            return Err(e);
        },
    }
    Ok(Arguments { count, n })
}

} // verus!
