use math_parser::syntax_tree::{ArithmeticError, Node, ParseError, SyntaxTree};
use math_parser::token::{to_tokens, Token};
use math_parser::{eval, EvalError};

#[test]
fn ast_two_plus_two() {
    assert_eq!(
        SyntaxTree::from_tokens(vec![
            Token::Integer(2),
            Token::Operator('+'),
            Token::Integer(2)
        ])
        .unwrap()
        .root,
        Node::Add(Box::new(Node::Value(2)), Box::new(Node::Value(2)))
    );
}

#[test]
fn ast_two_plus_two_plus_two() {
    assert_eq!(
        SyntaxTree::from_tokens(vec![
            Token::Integer(2),
            Token::Operator('+'),
            Token::Integer(2),
            Token::Operator('+'),
            Token::Integer(2),
        ])
        .unwrap()
        .root,
        Node::Add(
            Box::new(Node::Add(
                Box::new(Node::Value(2)),
                Box::new(Node::Value(2)),
            )),
            Box::new(Node::Value(2)),
        )
    );
}

#[test]
fn errors_for_too_much_values() {
    assert_eq!(
        SyntaxTree::from_tokens(vec![
            Token::Integer(2),
            Token::Operator('+'),
            Token::Integer(2),
            Token::Integer(2),
            Token::Integer(2),
            Token::Integer(2),
        ]),
        Err(ParseError::TooManyValues)
    );
}

#[test]
fn errors_for_too_much_operators() {
    assert_eq!(
        SyntaxTree::from_tokens(vec![
            Token::Integer(2),
            Token::Operator('+'),
            Token::Operator('+'),
            Token::Integer(2),
            Token::Integer(2),
        ]),
        Err(ParseError::UnexpectedToken)
    );
}

#[test]
fn test_left_associativity_operators() {
    assert_eq!(
        SyntaxTree::from_tokens(vec![
            Token::Integer(5),
            Token::Operator('-'),
            Token::Integer(3),
            Token::Operator('-'),
            Token::Integer(2),
        ]),
        Ok(SyntaxTree {
            root: Node::Subtract(
                Box::new(Node::Subtract(
                    Box::new(Node::Value(5)),
                    Box::new(Node::Value(3))
                )),
                Box::new(Node::Value(2))
            )
        })
    )
}

#[test]
fn test_paren_associativity() {
    assert_eq!(
        SyntaxTree::from_tokens(vec![
            Token::Integer(5),
            Token::Operator('+'),
            Token::Lparen,
            Token::Integer(3),
            Token::Operator('-'),
            Token::Integer(2),
            Token::Rparen,
        ])
        .unwrap()
        .evaluate(),
        6
    );
}

fn tree_of(text: &str) -> Result<SyntaxTree, ParseError> {
    SyntaxTree::from_tokens(to_tokens(text))
}

#[test]
fn no_precedence_between_operators() {
    assert_eq!(
        tree_of("2+3*4").unwrap().root,
        Node::Multiply(
            Box::new(Node::Add(
                Box::new(Node::Value(2)),
                Box::new(Node::Value(3))
            )),
            Box::new(Node::Value(4))
        )
    );
    assert_eq!(eval("2+3*4"), Ok(20));
    assert_eq!(eval("2 + 3 * 4"), Ok(20));
}

#[test]
fn same_symbol_chain_is_left_associative() {
    assert_eq!(eval("5 - 3 - 2"), Ok(0));
    assert_eq!(tree_of("5 - 3 - 2").unwrap().evaluate(), 0);
    assert_eq!(eval("100 / 10 / 5"), Ok(2));
}

#[test]
fn parentheses_group_first() {
    assert_eq!(eval("5 + (3 - 2)"), Ok(6));
    assert_eq!(eval("2 * (3 + 4)"), Ok(14));
    assert_eq!(eval("((1 + 2) * (3 + 4))"), Ok(21));
    assert_eq!(eval("(7)"), Ok(7));
}

#[test]
fn too_many_operands() {
    assert_eq!(eval("2 + 2 2 2 2"), Err(EvalError::Parse(ParseError::TooManyValues)));
    assert_eq!(eval("1 2"), Err(EvalError::Parse(ParseError::TooManyValues)));
    assert_eq!(eval("(1 2) + 3"), Err(EvalError::Parse(ParseError::TooManyValues)));
}

#[test]
fn operator_without_operand() {
    assert_eq!(eval("2 + + 2"), Err(EvalError::Parse(ParseError::UnexpectedToken)));
    assert_eq!(eval("2 +"), Err(EvalError::Parse(ParseError::UnexpectedToken)));
    assert_eq!(eval("+ 2"), Err(EvalError::Parse(ParseError::UnexpectedToken)));
    assert_eq!(eval("-5"), Err(EvalError::Parse(ParseError::UnexpectedToken)));
}

#[test]
fn empty_expression() {
    assert_eq!(eval(""), Err(EvalError::Parse(ParseError::UnexpectedToken)));
    assert_eq!(eval("()"), Err(EvalError::Parse(ParseError::UnexpectedToken)));
}

#[test]
fn unmatched_parentheses() {
    assert_eq!(eval("(2 + 3"), Err(EvalError::Parse(ParseError::MismatchedParenthesis)));
    assert_eq!(eval("2 + 3)"), Err(EvalError::Parse(ParseError::MismatchedParenthesis)));
    assert_eq!(eval(")("), Err(EvalError::Parse(ParseError::MismatchedParenthesis)));
    assert_eq!(eval("2 + + ("), Err(EvalError::Parse(ParseError::MismatchedParenthesis)));
}

#[test]
fn unknown_operator_token() {
    assert_eq!(
        SyntaxTree::from_tokens(vec![Token::Integer(1), Token::Operator('%'), Token::Integer(2)]),
        Err(ParseError::UnexpectedToken)
    );
}

#[test]
fn division_truncates_toward_zero() {
    assert_eq!(eval("7 / 2"), Ok(3));
    assert_eq!(eval("0 - 7 / 2"), Ok(-3));
}

#[test]
fn arithmetic_failures() {
    assert_eq!(eval("1 / 0"), Err(EvalError::Arithmetic(ArithmeticError::DivisionByZero)));
    assert_eq!(eval("2147483647 + 1"), Err(EvalError::Arithmetic(ArithmeticError::Overflow)));
    assert_eq!(eval("0 - 2147483647 - 2 "), Err(EvalError::Arithmetic(ArithmeticError::Overflow)));
    assert_eq!(eval("65536 * 65536"), Err(EvalError::Arithmetic(ArithmeticError::Overflow)));
    assert_eq!(eval("2147483648"), Err(EvalError::Arithmetic(ArithmeticError::Overflow)));
    assert_eq!(eval("0 - 2147483647 - 1 / (0 - 1)"), Err(EvalError::Arithmetic(ArithmeticError::Overflow)));
}

#[test]
fn left_failure_is_reported_first() {
    assert_eq!(
        eval("(1 / 0) + (2147483647 * 2)"),
        Err(EvalError::Arithmetic(ArithmeticError::DivisionByZero))
    );
}

#[test]
fn try_evaluate_reports_value_or_failure() {
    assert_eq!(tree_of("6 * 7").unwrap().try_evaluate(), Ok(42));
    assert_eq!(tree_of("6 / (3 - 3)").unwrap().try_evaluate(), Err(ArithmeticError::DivisionByZero));
    assert_eq!(Node::Value(-4).evaluate(), -4);
}

#[test]
fn fresh_evaluations_agree() {
    let first = tree_of("(8 - 2) * 3").unwrap().evaluate();
    let second = tree_of("(8 - 2) * 3").unwrap().evaluate();
    assert_eq!(first, 18);
    assert_eq!(first, second);
    assert_eq!(eval("(8 - 2) * 3"), eval("(8 - 2) * 3"));
}
