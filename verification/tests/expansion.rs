use future_union::arguments::{ArgToken, ArgumentError};
use future_union::invocation::{future_union_impl, InvocationError};
use future_union::path::{PathError, Side};
use proc_macro2::{TokenStream, TokenTree};

/// A nested two-variant type with numbered payloads.
enum Tree {
    Leaf(u64),
    Fork(Box<Tree>, Box<Tree>),
}

fn leaf(index: u64) -> Tree {
    Tree::Leaf(index)
}

fn fork(left: Tree, right: Tree) -> Tree {
    Tree::Fork(Box::new(left), Box::new(right))
}

/// The payload at the end of a route, if the route ends on a payload.
fn follow(tree: &Tree, route: &[Side]) -> Option<u64> {
    match (tree, route.split_first()) {
        (Tree::Leaf(index), None) => Some(*index),
        (Tree::Fork(left, _), Some((Side::Left, rest))) => follow(left, rest),
        (Tree::Fork(_, right), Some((Side::Right, rest))) => follow(right, rest),
        _ => None,
    }
}

/// What the argument reader needs to know of a token.
fn arg_token(token: TokenTree) -> ArgToken {
    match token {
        TokenTree::Punct(ref p) if p.as_char() == ',' => ArgToken::Comma,
        other => {
            let single: TokenStream = std::iter::once(other).collect();
            match syn::parse2::<syn::LitInt>(single) {
                Ok(literal) => ArgToken::Integer(literal.value()),
                Err(_) => ArgToken::Other,
            }
        }
    }
}

/// The path for the arguments of one use of the macro, written as source text.
fn resolve(arguments: &str) -> Result<Vec<Side>, InvocationError> {
    let stream: TokenStream = arguments.parse().unwrap();
    let tokens: Vec<ArgToken> = stream.into_iter().map(arg_token).collect();
    future_union_impl(&tokens)
}

/// Every index of `count` is wrapped so that it lands on its own payload of `tree`.
fn assert_tree(count: u64, tree: Tree) {
    for n in 0..count {
        let route = resolve(&format!("{}, {}, [(); {}]", count, n, n)).unwrap();
        assert_eq!(follow(&tree, &route), Some(n), "count {}, index {}", count, n);
    }
}

#[test]
fn demo_compiles() {
    // The three arms of a three-way choice are wrapped into one nested type.
    let tree = fork(fork(leaf(0), leaf(1)), leaf(2));
    let first = resolve("3, 0, future::ok(())").unwrap();
    let second = resolve("3, 1, future::ok(()).map(|_| ())").unwrap();
    let third = resolve("3, 2, future::ok(()).map(|_| ()).map(|_| ())").unwrap();
    assert_eq!(follow(&tree, &first), Some(0));
    assert_eq!(follow(&tree, &second), Some(1));
    assert_eq!(follow(&tree, &third), Some(2));
}

#[test]
fn trees_as_expected() {
    assert_tree(2, fork(leaf(0), leaf(1)));
    assert_tree(3, fork(fork(leaf(0), leaf(1)), leaf(2)));
    assert_tree(4, fork(fork(leaf(0), leaf(1)), fork(leaf(2), leaf(3))));
    assert_tree(
        5,
        fork(fork(fork(leaf(0), leaf(1)), fork(leaf(2), leaf(3))), leaf(4)),
    );
    assert_tree(
        6,
        fork(
            fork(fork(leaf(0), leaf(1)), fork(leaf(2), leaf(3))),
            fork(leaf(4), leaf(5)),
        ),
    );
    assert_tree(
        7,
        fork(
            fork(fork(leaf(0), leaf(1)), fork(leaf(2), leaf(3))),
            fork(fork(leaf(4), leaf(5)), leaf(6)),
        ),
    );
    assert_tree(
        8,
        fork(
            fork(fork(leaf(0), leaf(1)), fork(leaf(2), leaf(3))),
            fork(fork(leaf(4), leaf(5)), fork(leaf(6), leaf(7))),
        ),
    );
    assert_tree(
        9,
        fork(
            fork(
                fork(fork(leaf(0), leaf(1)), fork(leaf(2), leaf(3))),
                fork(fork(leaf(4), leaf(5)), fork(leaf(6), leaf(7))),
            ),
            leaf(8),
        ),
    );
}

#[test]
fn source_text_is_resolved() {
    assert_eq!(resolve("1, 0, x"), Ok(vec![]));
    assert_eq!(resolve("2, 1, x"), Ok(vec![Side::Right]));
    assert_eq!(resolve("5, 3, a + b"), Ok(vec![Side::Left, Side::Right, Side::Right]));
    assert_eq!(resolve("5, 4, (a, b)"), Ok(vec![Side::Right]));
}

#[test]
fn payload_may_hold_commas_and_numbers() {
    assert_eq!(resolve("2, 0, f(1, 2), 3"), Ok(vec![Side::Left]));
    assert_eq!(resolve("2, 0,"), Ok(vec![Side::Left]));
}

#[test]
fn literals_in_other_notations_are_integers() {
    assert_eq!(resolve("0x3, 0b10, x"), Ok(vec![Side::Right]));
    assert_eq!(resolve("3u64, 1usize, x"), Ok(vec![Side::Left, Side::Right]));
    assert_eq!(resolve("1_0, 0_9, x"), resolve("10, 9, x"));
}

#[test]
fn missing_arguments_in_source_text() {
    let too_few = Err(InvocationError::Arguments(ArgumentError::TooFewArguments));
    assert_eq!(resolve(""), too_few);
    assert_eq!(resolve("3"), too_few);
    assert_eq!(resolve("3,"), too_few);
    assert_eq!(resolve("3, 0"), too_few);
}

#[test]
fn other_tokens_where_integers_belong() {
    let no_integer = Err(InvocationError::Arguments(ArgumentError::ExpectedInteger));
    assert_eq!(resolve("x, 0, y"), no_integer);
    assert_eq!(resolve("3, n, y"), no_integer);
    assert_eq!(resolve("3, -1, y"), no_integer);
    assert_eq!(resolve("3, 1.5, y"), no_integer);
    assert_eq!(resolve("\"3\", 0, y"), no_integer);
    assert_eq!(resolve("(3), 0, y"), no_integer);
    assert_eq!(resolve(", 3, 0, y"), no_integer);
}

#[test]
fn other_tokens_where_commas_belong() {
    let no_comma = Err(InvocationError::Arguments(ArgumentError::ExpectedComma));
    assert_eq!(resolve("3 0, y"), no_comma);
    assert_eq!(resolve("3; 0, y"), no_comma);
    assert_eq!(resolve("3, 0; y"), no_comma);
    assert_eq!(resolve("3, 0 y"), no_comma);
}

#[test]
fn numbers_that_name_no_alternative() {
    assert_eq!(resolve("0, 0, y"), Err(InvocationError::Path(PathError::InvalidCount)));
    assert_eq!(resolve("3, 3, y"), Err(InvocationError::Path(PathError::IndexOutOfRange)));
    assert_eq!(
        resolve("18446744073709551615, 18446744073709551615, y"),
        Err(InvocationError::Path(PathError::IndexOutOfRange))
    );
}
