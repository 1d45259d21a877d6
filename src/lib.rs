//! A small arithmetic-expression interpreter: text is scanned into tokens,
//! the tokens are parsed into a syntax tree, and the tree is reduced to an
//! integer. Operators have no precedence: they combine strictly from left to
//! right, and parentheses are the only way to group otherwise.
use vstd::prelude::*;

pub mod syntax_tree;
pub mod token;

pub use syntax_tree::{ArithmeticError, Node, ParseError, SyntaxTree};
pub use token::{to_tokens, Token, Tokens};

use syntax_tree::{parse, value};
use token::{literals_fit, scan, to_tokens_checked};

verus! {

/// Why a text has no value.
#[derive(Debug, Clone, Copy, PartialEq, Eq, Structural)]
pub enum EvalError {
    Parse(ParseError),
    Arithmetic(ArithmeticError),
}

/// The value of a text: a literal beyond `i32` is an overflow; otherwise the
/// tokens are parsed and the tree reduced.
pub open spec fn evaluation(text: Seq<char>) -> Result<i32, EvalError> {
    if !literals_fit(text) {
        Err(EvalError::Arithmetic(ArithmeticError::Overflow))
    } else {
        match parse(scan(text)) {
            Err(e) => Err(EvalError::Parse(e)),
            Ok(root) => match value(root) {
                Ok(v) => Ok(v),
                Err(e) => Err(EvalError::Arithmetic(e)),
            },
        }
    }
}

/// Scans, parses and evaluates `text`.
pub fn eval(text: &str) -> (r: Result<i32, EvalError>)
    ensures
        r == evaluation(text@),
{
    let tokens = match to_tokens_checked(text) {
        Some(tokens) => tokens,
        None => return Err(EvalError::Arithmetic(ArithmeticError::Overflow)),
    };
    match SyntaxTree::from_tokens(tokens) {
        Err(e) => Err(EvalError::Parse(e)),
        Ok(tree) => match tree.try_evaluate() {
            Ok(v) => Ok(v),
            Err(e) => Err(EvalError::Arithmetic(e)),
        },
    }
}

/// Evaluation depends on the text alone: scanning, parsing and evaluating the
/// same text afresh always gives the same result.
pub proof fn evaluation_is_deterministic(a: Seq<char>, b: Seq<char>)
    requires
        a == b,
    ensures
        evaluation(a) == evaluation(b),
{
}

} // verus!
