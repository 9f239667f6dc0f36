use future_union::arguments::{read_arguments, ArgToken, ArgumentError, Arguments, ARGUMENT_TOKENS};
use future_union::invocation::{future_union_impl, InvocationError};
use future_union::path::{PathError, Side};

use ArgToken::{Comma, Integer, Other};

#[test]
fn arguments_are_read_from_the_head() {
    assert_eq!(
        read_arguments(&[Integer(3), Comma, Integer(1), Comma, Other]),
        Ok(Arguments { count: 3, n: 1 })
    );
    assert_eq!(ARGUMENT_TOKENS, 4);
}

#[test]
fn payload_may_be_empty_or_long() {
    assert_eq!(
        read_arguments(&[Integer(9), Comma, Integer(8), Comma]),
        Ok(Arguments { count: 9, n: 8 })
    );
    assert_eq!(
        read_arguments(&[Integer(9), Comma, Integer(8), Comma, Comma, Integer(7), Other, Other]),
        Ok(Arguments { count: 9, n: 8 })
    );
}

#[test]
fn numbers_are_not_judged_by_the_reader() {
    assert_eq!(
        read_arguments(&[Integer(0), Comma, Integer(u64::MAX), Comma]),
        Ok(Arguments { count: 0, n: u64::MAX })
    );
}

#[test]
fn short_rows_have_too_few_arguments() {
    assert_eq!(read_arguments(&[]), Err(ArgumentError::TooFewArguments));
    assert_eq!(read_arguments(&[Integer(3)]), Err(ArgumentError::TooFewArguments));
    assert_eq!(read_arguments(&[Integer(3), Comma]), Err(ArgumentError::TooFewArguments));
    assert_eq!(
        read_arguments(&[Integer(3), Comma, Integer(0)]),
        Err(ArgumentError::TooFewArguments)
    );
}

#[test]
fn numbers_have_to_be_integer_literals() {
    assert_eq!(
        read_arguments(&[Other, Comma, Integer(0), Comma, Other]),
        Err(ArgumentError::ExpectedInteger)
    );
    assert_eq!(
        read_arguments(&[Integer(3), Comma, Other, Comma, Other]),
        Err(ArgumentError::ExpectedInteger)
    );
    assert_eq!(
        read_arguments(&[Comma, Integer(3), Comma, Integer(0)]),
        Err(ArgumentError::ExpectedInteger)
    );
    assert_eq!(
        read_arguments(&[Integer(3), Comma, Comma, Integer(0)]),
        Err(ArgumentError::ExpectedInteger)
    );
}

#[test]
fn numbers_have_to_be_followed_by_commas() {
    assert_eq!(
        read_arguments(&[Integer(3), Other, Integer(0), Comma, Other]),
        Err(ArgumentError::ExpectedComma)
    );
    assert_eq!(
        read_arguments(&[Integer(3), Integer(0), Comma, Other]),
        Err(ArgumentError::ExpectedComma)
    );
    assert_eq!(
        read_arguments(&[Integer(3), Comma, Integer(0), Other]),
        Err(ArgumentError::ExpectedComma)
    );
}

#[test]
fn first_fault_is_reported() {
    assert_eq!(read_arguments(&[Other]), Err(ArgumentError::ExpectedInteger));
    assert_eq!(read_arguments(&[Other, Other]), Err(ArgumentError::ExpectedInteger));
    assert_eq!(read_arguments(&[Integer(1), Other]), Err(ArgumentError::ExpectedComma));
    assert_eq!(
        read_arguments(&[Integer(1), Other, Other]),
        Err(ArgumentError::ExpectedComma)
    );
    assert_eq!(
        read_arguments(&[Integer(1), Comma, Other]),
        Err(ArgumentError::ExpectedInteger)
    );
}

#[test]
fn complaints_are_worded() {
    assert_eq!(ArgumentError::TooFewArguments.message(), "Too few arguments");
    assert_eq!(ArgumentError::ExpectedInteger.message(), "Expecting integer literal");
    assert_eq!(
        ArgumentError::ExpectedComma.message(),
        "Invalid syntax, expected a comma"
    );
}

#[test]
fn invocation_gives_the_path() {
    assert_eq!(
        future_union_impl(&[Integer(3), Comma, Integer(0), Comma, Other]),
        Ok(vec![Side::Left, Side::Left])
    );
    assert_eq!(
        future_union_impl(&[Integer(3), Comma, Integer(1), Comma, Other, Other]),
        Ok(vec![Side::Left, Side::Right])
    );
    assert_eq!(
        future_union_impl(&[Integer(3), Comma, Integer(2), Comma, Other]),
        Ok(vec![Side::Right])
    );
    assert_eq!(
        future_union_impl(&[Integer(1), Comma, Integer(0), Comma, Other]),
        Ok(vec![])
    );
}

#[test]
fn invocation_reports_bad_arguments() {
    assert_eq!(
        future_union_impl(&[]),
        Err(InvocationError::Arguments(ArgumentError::TooFewArguments))
    );
    assert_eq!(
        future_union_impl(&[Other, Comma, Integer(0), Comma]),
        Err(InvocationError::Arguments(ArgumentError::ExpectedInteger))
    );
    assert_eq!(
        future_union_impl(&[Integer(2), Other, Integer(0), Comma]),
        Err(InvocationError::Arguments(ArgumentError::ExpectedComma))
    );
}

#[test]
fn invocation_reports_bad_numbers() {
    assert_eq!(
        future_union_impl(&[Integer(0), Comma, Integer(0), Comma, Other]),
        Err(InvocationError::Path(PathError::InvalidCount))
    );
    assert_eq!(
        future_union_impl(&[Integer(3), Comma, Integer(3), Comma, Other]),
        Err(InvocationError::Path(PathError::IndexOutOfRange))
    );
}

#[test]
fn bad_arguments_come_before_bad_numbers() {
    assert_eq!(
        future_union_impl(&[Integer(0), Comma, Integer(5)]),
        Err(InvocationError::Arguments(ArgumentError::TooFewArguments))
    );
    assert_eq!(
        future_union_impl(&[Integer(3), Comma, Integer(7), Other]),
        Err(InvocationError::Arguments(ArgumentError::ExpectedComma))
    );
}
