use math_parser::token::Token::{Integer, Lparen, Operator, Rparen};
use math_parser::token::{to_tokens, to_tokens_checked, Tokens};

#[test]
fn two_plus_two() {
    assert_eq!(
        to_tokens("2 + 2"),
        vec![Integer(2), Operator('+'), Integer(2)]
    );
}

#[test]
fn multi_integer_numbers() {
    assert_eq!(
        to_tokens("101 + 202"),
        vec![Integer(101), Operator('+'), Integer(202)]
    );
}

#[test]
fn space_separated_tokens() {
    assert_eq!(
        to_tokens("2 + 2 + 2 2 2"),
        vec![
            Integer(2),
            Operator('+'),
            Integer(2),
            Operator('+'),
            Integer(2),
            Integer(2),
            Integer(2),
        ]
    );
}

#[test]
fn handle_whitespace() {
    assert_eq!(
        to_tokens("    231\n    \t+\n    1312    "),
        vec![Integer(231), Operator('+'), Integer(1312)]
    );
}

#[test]
fn works_for_not_space_separated_input() {
    assert_eq!(
        to_tokens("2+2+2+2"),
        vec![
            Integer(2),
            Operator('+'),
            Integer(2),
            Operator('+'),
            Integer(2),
            Operator('+'),
            Integer(2),
        ]
    )
}

#[test]
fn spacing_does_not_change_tokens() {
    assert_eq!(to_tokens("2+2"), to_tokens("2 + 2"));
    assert_eq!(to_tokens("(1*2)/3"), to_tokens(" ( 1 * 2 ) / 3 "));
}

#[test]
fn space_between_digits_splits_literal() {
    assert_eq!(to_tokens("1 2"), vec![Integer(1), Integer(2)]);
    assert_eq!(to_tokens("12"), vec![Integer(12)]);
}

#[test]
fn all_operators_and_parentheses() {
    assert_eq!(
        to_tokens("(1-2)*3/4"),
        vec![
            Lparen,
            Integer(1),
            Operator('-'),
            Integer(2),
            Rparen,
            Operator('*'),
            Integer(3),
            Operator('/'),
            Integer(4),
        ]
    );
}

#[test]
fn unknown_characters_are_skipped() {
    assert_eq!(
        to_tokens("2 a+ $3"),
        vec![Integer(2), Operator('+'), Integer(3)]
    );
    assert_eq!(to_tokens("1x2"), vec![Integer(1), Integer(2)]);
}

#[test]
fn minus_is_never_part_of_a_literal() {
    assert_eq!(to_tokens("-5"), vec![Operator('-'), Integer(5)]);
}

#[test]
fn empty_and_blank_text() {
    assert_eq!(to_tokens(""), vec![]);
    assert_eq!(to_tokens(" \t\n "), vec![]);
}

#[test]
fn leading_zeros_and_largest_literal() {
    assert_eq!(to_tokens("007"), vec![Integer(7)]);
    assert_eq!(to_tokens("2147483647"), vec![Integer(2147483647)]);
}

#[test]
fn checked_scan_rejects_oversized_literal() {
    assert_eq!(to_tokens_checked("2147483648"), None);
    assert_eq!(to_tokens_checked("1 + 99999999999"), None);
    assert_eq!(
        to_tokens_checked("1 + 2147483647"),
        Some(vec![Integer(1), Operator('+'), Integer(2147483647)])
    );
}

#[test]
fn tokens_come_one_at_a_time() {
    let mut tokens = Tokens::new(" 12*(3)");
    assert_eq!(tokens.next(), Some(Integer(12)));
    assert_eq!(tokens.next(), Some(Operator('*')));
    assert_eq!(tokens.next(), Some(Lparen));
    assert_eq!(tokens.next(), Some(Integer(3)));
    assert_eq!(tokens.next(), Some(Rparen));
    assert_eq!(tokens.next(), None);
    assert_eq!(tokens.next(), None);
}
