//! Parsing tokens into a syntax tree, and reducing the tree to an integer.
use vstd::prelude::*;

use crate::token::{is_operator, Token};

verus! {

/// A node of the syntax tree: a value, or an operator applied to two owned
/// subtrees.
#[derive(Debug, PartialEq, Eq)]
pub enum Node {
    Value(i32),
    Add(Box<Node>, Box<Node>),
    Subtract(Box<Node>, Box<Node>),
    Multiply(Box<Node>, Box<Node>),
    Divide(Box<Node>, Box<Node>),
}

/// A parsed expression.
#[derive(Debug, PartialEq, Eq)]
pub struct SyntaxTree {
    pub root: Node,
}

/// Why a token sequence is not a well-formed expression.
#[derive(Debug, Clone, Copy, PartialEq, Eq, Structural)]
pub enum ParseError {
    /// Operands were left over with no operator to combine them.
    TooManyValues,
    /// A token stood where none of its kind may stand, or an operand was
    /// missing.
    UnexpectedToken,
    /// A parenthesis has no partner.
    MismatchedParenthesis,
}

/// Why a syntax tree has no value.
#[derive(Debug, Clone, Copy, PartialEq, Eq, Structural)]
pub enum ArithmeticError {
    DivisionByZero,
    /// The result, or a literal, lies outside the range of `i32`.
    Overflow,
}

/// The node that applies the operator written `op` to `lhs` and `rhs`.
pub open spec fn binary_node(op: char, lhs: Node, rhs: Node) -> Node {
    if op == '+' {
        Node::Add(Box::new(lhs), Box::new(rhs))
    } else if op == '-' {
        Node::Subtract(Box::new(lhs), Box::new(rhs))
    } else if op == '*' {
        Node::Multiply(Box::new(lhs), Box::new(rhs))
    } else {
        Node::Divide(Box::new(lhs), Box::new(rhs))
    }
}

/// `i32` arithmetic as Rust defines it (division truncates toward zero),
/// with the cases that have no `i32` result turned into errors.
pub open spec fn apply(op: char, a: i32, b: i32) -> Result<i32, ArithmeticError> {
    let r = if op == '+' {
        a.checked_add(b)
    } else if op == '-' {
        a.checked_sub(b)
    } else if op == '*' {
        a.checked_mul(b)
    } else {
        a.checked_div(b)
    };
    if op == '/' && b == 0 {
        Err(ArithmeticError::DivisionByZero)
    } else {
        match r {
            Some(v) => Ok(v),
            None => Err(ArithmeticError::Overflow),
        }
    }
}

/// Combines the values of two subtrees: the left error comes first.
pub open spec fn apply_values(
    op: char,
    lhs: Result<i32, ArithmeticError>,
    rhs: Result<i32, ArithmeticError>,
) -> Result<i32, ArithmeticError> {
    match lhs {
        Err(e) => Err(e),
        Ok(a) => match rhs {
            Err(e) => Err(e),
            Ok(b) => apply(op, a, b),
        },
    }
}

/// The value of a tree, reduced bottom-up.
pub open spec fn value(n: Node) -> Result<i32, ArithmeticError>
    decreases n,
{
    match n {
        Node::Value(v) => Ok(v),
        Node::Add(l, r) => apply_values('+', value(*l), value(*r)),
        Node::Subtract(l, r) => apply_values('-', value(*l), value(*r)),
        Node::Multiply(l, r) => apply_values('*', value(*l), value(*r)),
        Node::Divide(l, r) => apply_values('/', value(*l), value(*r)),
    }
}

fn apply_op(op: char, a: i32, b: i32) -> (r: Result<i32, ArithmeticError>)
    ensures
        r == apply(op, a, b),
{
    if op == '/' && b == 0 {
        return Err(ArithmeticError::DivisionByZero);
    }
    let v = if op == '+' {
        a.checked_add(b)
    } else if op == '-' {
        a.checked_sub(b)
    } else if op == '*' {
        a.checked_mul(b)
    } else {
        a.checked_div(b)
    };
    match v {
        Some(v) => Ok(v),
        None => Err(ArithmeticError::Overflow),
    }
}

impl Node {
    /// Reduces the tree to its value, or to the first arithmetic failure met
    /// going left before right.
    pub fn try_evaluate(self) -> (r: Result<i32, ArithmeticError>)
        ensures
            r == value(self),
        decreases self,
    {
        let (op, lhs, rhs) = match self {
            Node::Value(v) => return Ok(v),
            Node::Add(l, r) => ('+', l, r),
            Node::Subtract(l, r) => ('-', l, r),
            Node::Multiply(l, r) => ('*', l, r),
            Node::Divide(l, r) => ('/', l, r),
        };
        let a = match (*lhs).try_evaluate() {
            Ok(a) => a,
            Err(e) => return Err(e),
        };
        let b = match (*rhs).try_evaluate() {
            Ok(b) => b,
            Err(e) => return Err(e),
        };
        apply_op(op, a, b)
    }

    /// Reduces the tree to its value.
    pub fn evaluate(self) -> (r: i32)
        requires
            value(self) is Ok,
        ensures
            value(self) == Ok::<i32, ArithmeticError>(r),
    {
        match self.try_evaluate() {
            Ok(v) => v,
            // ruled out by the precondition
            Err(_) => 0,
        }
    }
}

/// A count, if any, increased by `by`.
pub open spec fn shift(k: Option<nat>, by: nat) -> Option<nat> {
    match k {
        Some(k) => Some(k + by),
        None => None,
    }
}

/// The number of tokens from `i` on before the `)` that closes the group
/// around position `i`, where `depth` groups opened inside that group are
/// still open at `i`; `None` where the group never closes.
pub open spec fn group_len(t: Seq<Token>, i: int, depth: nat) -> Option<nat>
    decreases t.len() - i,
{
    if i >= t.len() {
        None
    } else {
        match t[i] {
            Token::Rparen => if depth == 0 {
                Some(0)
            } else {
                shift(group_len(t, i + 1, (depth - 1) as nat), 1)
            },
            Token::Lparen => shift(group_len(t, i + 1, depth + 1), 1),
            _ => shift(group_len(t, i + 1, depth), 1),
        }
    }
}

/// A group that closes does so within the sequence.
pub proof fn lemma_group_len_bound(t: Seq<Token>, i: int, depth: nat)
    ensures
        group_len(t, i, depth) matches Some(k) ==> i + k < t.len() && t[i + k] is Rparen,
    decreases t.len() - i,
{
    if i < t.len() {
        match t[i] {
            Token::Rparen => if depth > 0 {
                lemma_group_len_bound(t, i + 1, (depth - 1) as nat);
            },
            Token::Lparen => lemma_group_len_bound(t, i + 1, depth + 1),
            _ => lemma_group_len_bound(t, i + 1, depth),
        }
    }
}

/// Every `)` from `i` on closes an earlier `(`, and the `depth` groups open at
/// `i` are all closed by the end.
pub open spec fn balanced_from(t: Seq<Token>, i: int, depth: nat) -> bool
    decreases t.len() - i,
{
    if i >= t.len() {
        depth == 0
    } else {
        match t[i] {
            Token::Lparen => balanced_from(t, i + 1, depth + 1),
            Token::Rparen => depth > 0 && balanced_from(t, i + 1, (depth - 1) as nat),
            _ => balanced_from(t, i + 1, depth),
        }
    }
}

/// Each parenthesis of `t` has a partner.
pub open spec fn balanced(t: Seq<Token>) -> bool {
    balanced_from(t, 0, 0)
}

/// Hands an operand to the stack: it is pushed, or, where an operator waits
/// for it, it becomes that operator's right side and the top of the stack its
/// left side.
pub open spec fn deliver(stack: Seq<Node>, pending: Option<char>, operand: Node) -> Seq<Node> {
    match pending {
        None => stack.push(operand),
        Some(op) => stack.drop_last().push(binary_node(op, stack.last(), operand)),
    }
}

/// What the operand stack at the end of the input amounts to.
pub open spec fn finish(stack: Seq<Node>) -> Result<Node, ParseError> {
    if stack.len() == 1 {
        Ok(stack[0])
    } else if stack.len() == 0 {
        Err(ParseError::UnexpectedToken)
    } else {
        Err(ParseError::TooManyValues)
    }
}

/// The tree of `t` from position `i` on, given the operand stack so far and
/// the operator, if any, that waits for its right side. One left-to-right
/// pass: an operator takes the tree on top of the stack as its left side and
/// the next operand (an integer, or a parenthesized group parsed on its own)
/// as its right side, so operators combine strictly from left to right.
pub open spec fn reduce(t: Seq<Token>, i: int, stack: Seq<Node>, pending: Option<char>) -> Result<
    Node,
    ParseError,
>
    decreases t.len() - i,
    when 0 <= i
{
    if i >= t.len() {
        if pending is Some {
            Err(ParseError::UnexpectedToken)
        } else {
            finish(stack)
        }
    } else {
        match t[i] {
            Token::Integer(n) => reduce(t, i + 1, deliver(stack, pending, Node::Value(n)), None),
            Token::Lparen => match group_len(t, i + 1, 0) {
                None => Err(ParseError::MismatchedParenthesis),
                Some(k) => {
                    proof {
                        lemma_group_len_bound(t, i + 1, 0);
                    }
                    match reduce(t.subrange(i + 1, i + 1 + k), 0, Seq::empty(), None) {
                        Ok(inner) => reduce(t, i + k + 2, deliver(stack, pending, inner), None),
                        Err(e) => Err(e),
                    }
                },
            },
            Token::Rparen => Err(ParseError::MismatchedParenthesis),
            Token::Operator(op) => if pending is Some || stack.len() == 0 || !is_operator(op) {
                Err(ParseError::UnexpectedToken)
            } else {
                reduce(t, i + 1, stack, Some(op))
            },
        }
    }
}

/// The tree of a token sequence. Unbalanced parentheses are reported before
/// anything else.
pub open spec fn parse(t: Seq<Token>) -> Result<Node, ParseError> {
    if balanced(t) {
        reduce(t, 0, Seq::empty(), None)
    } else {
        Err(ParseError::MismatchedParenthesis)
    }
}

fn new_binary(op: char, lhs: Node, rhs: Node) -> (r: Node)
    ensures
        r == binary_node(op, lhs, rhs),
{
    if op == '+' {
        Node::Add(Box::new(lhs), Box::new(rhs))
    } else if op == '-' {
        Node::Subtract(Box::new(lhs), Box::new(rhs))
    } else if op == '*' {
        Node::Multiply(Box::new(lhs), Box::new(rhs))
    } else {
        Node::Divide(Box::new(lhs), Box::new(rhs))
    }
}

fn push_operand(stack: &mut Vec<Node>, pending: Option<char>, operand: Node)
    requires
        pending is Some ==> old(stack).len() > 0,
    ensures
        final(stack)@ == deliver(old(stack)@, pending, operand),
{
    match pending {
        None => stack.push(operand),
        Some(op) => match stack.pop() {
            Some(lhs) => stack.push(new_binary(op, lhs, operand)),
            None => {},
        },
    }
}

/// The number of tokens inside the group whose inside starts at `start`,
/// before its closing `)`.
fn group_end(tokens: &Vec<Token>, start: usize) -> (r: Option<usize>)
    requires
        start <= tokens.len(),
    ensures
        r matches Some(k) ==> group_len(tokens@, start as int, 0) == Some(k as nat) && start + k
            < tokens.len(),
        r is None ==> group_len(tokens@, start as int, 0) is None,
{
    let ghost t = tokens@;
    let mut depth: usize = 0;
    let mut j: usize = start;
    while j < tokens.len()
        invariant
            start <= j <= tokens.len(),
            t == tokens@,
            depth <= j - start,
            group_len(t, start as int, 0) == shift(group_len(t, j as int, depth as nat), (j - start) as nat),
        decreases tokens.len() - j,
    {
        match tokens[j] {
            Token::Rparen => {
                if depth == 0 {
                    return Some(j - start);
                }
                depth = depth - 1;
            },
            Token::Lparen => {
                depth = depth + 1;
            },
            _ => {},
        }
        j = j + 1;
    }
    None
}

fn is_balanced(tokens: &Vec<Token>) -> (r: bool)
    ensures
        r == balanced(tokens@),
{
    let ghost t = tokens@;
    let mut depth: usize = 0;
    let mut j: usize = 0;
    while j < tokens.len()
        invariant
            j <= tokens.len(),
            t == tokens@,
            depth <= j,
            balanced(t) == balanced_from(t, j as int, depth as nat),
        decreases tokens.len() - j,
    {
        match tokens[j] {
            Token::Rparen => {
                if depth == 0 {
                    return false;
                }
                depth = depth - 1;
            },
            Token::Lparen => {
                depth = depth + 1;
            },
            _ => {},
        }
        j = j + 1;
    }
    depth == 0
}

fn copy_range(tokens: &Vec<Token>, from: usize, to: usize) -> (r: Vec<Token>)
    requires
        from <= to <= tokens.len(),
    ensures
        r@ == tokens@.subrange(from as int, to as int),
{
    let mut r: Vec<Token> = Vec::new();
    let mut j: usize = from;
    while j < to
        invariant
            from <= j <= to <= tokens.len(),
            r@ == tokens@.subrange(from as int, j as int),
        decreases to - j,
    {
        r.push(tokens[j]);
        j = j + 1;
    }
    r
}

/// Builds the tree of `tokens` in one left-to-right pass over an operand
/// stack; a parenthesized group is parsed by a recursive call.
fn parse_expression(tokens: &Vec<Token>) -> (r: Result<Node, ParseError>)
    ensures
        r == reduce(tokens@, 0, Seq::empty(), None),
    decreases tokens@.len(),
{
    let ghost t = tokens@;
    let mut stack: Vec<Node> = Vec::new();
    let mut pending: Option<char> = None;
    let mut i: usize = 0;
    while i < tokens.len()
        invariant
            i <= tokens.len(),
            t == tokens@,
            pending is Some ==> stack.len() > 0,
            reduce(t, 0, Seq::empty(), None) == reduce(t, i as int, stack@, pending),
        decreases tokens.len() - i,
    {
        match tokens[i] {
            Token::Integer(n) => {
                push_operand(&mut stack, pending, Node::Value(n));
                pending = None;
                i = i + 1;
            },
            Token::Lparen => {
                match group_end(tokens, i + 1) {
                    None => return Err(ParseError::MismatchedParenthesis),
                    Some(k) => {
                        let inner_tokens = copy_range(tokens, i + 1, i + 1 + k);
                        match parse_expression(&inner_tokens) {
                            Ok(inner) => {
                                push_operand(&mut stack, pending, inner);
                                pending = None;
                                i = i + k + 2;
                            },
                            Err(e) => return Err(e),
                        }
                    },
                }
            },
            Token::Rparen => return Err(ParseError::MismatchedParenthesis),
            Token::Operator(op) => {
                if pending.is_some() || stack.len() == 0 || !(op == '+' || op == '-' || op == '*'
                    || op == '/') {
                    return Err(ParseError::UnexpectedToken);
                }
                pending = Some(op);
                i = i + 1;
            },
        }
    }
    if pending.is_some() {
        return Err(ParseError::UnexpectedToken);
    }
    if stack.len() == 1 {
        match stack.pop() {
            Some(root) => Ok(root),
            None => Err(ParseError::UnexpectedToken),
        }
    } else if stack.len() == 0 {
        Err(ParseError::UnexpectedToken)
    } else {
        Err(ParseError::TooManyValues)
    }
}

impl SyntaxTree {
    /// Parses a token sequence into a tree.
    pub fn from_tokens(tokens: Vec<Token>) -> (r: Result<SyntaxTree, ParseError>)
        ensures
            match r {
                Ok(tree) => parse(tokens@) == Ok::<Node, ParseError>(tree.root),
                Err(e) => parse(tokens@) == Err::<Node, ParseError>(e),
            },
    {
        if !is_balanced(&tokens) {
            return Err(ParseError::MismatchedParenthesis);
        }
        match parse_expression(&tokens) {
            Ok(root) => Ok(SyntaxTree { root }),
            Err(e) => Err(e),
        }
    }

    /// Reduces the tree to its value, or to the first arithmetic failure met
    /// going left before right.
    pub fn try_evaluate(self) -> (r: Result<i32, ArithmeticError>)
        ensures
            r == value(self.root),
    {
        self.root.try_evaluate()
    }

    /// Reduces the tree to its value.
    pub fn evaluate(self) -> (r: i32)
        requires
            value(self.root) is Ok,
        ensures
            value(self.root) == Ok::<i32, ArithmeticError>(r),
    {
        self.root.evaluate()
    }
}

/// Where the parentheses from `j` on close `depth + 1` open groups, the
/// innermost of them closes, and what follows it is balanced.
proof fn lemma_group_closes(t: Seq<Token>, j: int, depth: nat)
    requires
        0 <= j,
        balanced_from(t, j, depth + 1),
    ensures
        group_len(t, j, depth) matches Some(k) && balanced_from(t, j + k + 1, 0),
    decreases t.len() - j,
{
    if j < t.len() {
        match t[j] {
            Token::Rparen => if depth > 0 {
                lemma_group_closes(t, j + 1, (depth - 1) as nat);
            },
            Token::Lparen => lemma_group_closes(t, j + 1, depth + 1),
            _ => lemma_group_closes(t, j + 1, depth),
        }
    }
}

/// The inside of a group that closes at `e` is balanced on its own.
proof fn lemma_group_inside_balanced(t: Seq<Token>, s: int, j: int, e: int, depth: nat)
    requires
        0 <= s <= j <= e < t.len(),
        t[e] is Rparen,
        group_len(t, j, depth) == Some((e - j) as nat),
    ensures
        balanced_from(t.subrange(s, e), j - s, depth),
    decreases e - j,
{
    let u = t.subrange(s, e);
    if j < e {
        assert(u[j - s] == t[j]);
        match t[j] {
            Token::Rparen => {
                lemma_group_inside_balanced(t, s, j + 1, e, (depth - 1) as nat);
            },
            Token::Lparen => lemma_group_inside_balanced(t, s, j + 1, e, depth + 1),
            _ => lemma_group_inside_balanced(t, s, j + 1, e, depth),
        }
    }
}

/// Parsing from a position where the rest is balanced never meets a
/// parenthesis without a partner.
proof fn lemma_balanced_no_mismatch(t: Seq<Token>, i: int, stack: Seq<Node>, pending: Option<char>)
    requires
        0 <= i <= t.len(),
        balanced_from(t, i, 0),
    ensures
        reduce(t, i, stack, pending) != Err::<Node, ParseError>(ParseError::MismatchedParenthesis),
    decreases t.len() - i,
{
    if i < t.len() {
        match t[i] {
            Token::Integer(n) => {
                lemma_balanced_no_mismatch(t, i + 1, deliver(stack, pending, Node::Value(n)), None);
            },
            Token::Lparen => {
                lemma_group_closes(t, i + 1, 0);
                lemma_group_len_bound(t, i + 1, 0);
                let k = group_len(t, i + 1, 0)->0;
                lemma_group_inside_balanced(t, i + 1, i + 1, i + 1 + k, 0);
                let inner = t.subrange(i + 1, i + 1 + k);
                lemma_balanced_no_mismatch(inner, 0, Seq::empty(), None);
                if let Ok(g) = reduce(inner, 0, Seq::empty(), None) {
                    lemma_balanced_no_mismatch(t, i + k + 2, deliver(stack, pending, g), None);
                }
            },
            Token::Operator(op) => {
                lemma_balanced_no_mismatch(t, i + 1, stack, Some(op));
            },
            Token::Rparen => {},
        }
    }
}

/// `MismatchedParenthesis` is reported exactly where some parenthesis has no
/// partner.
pub proof fn mismatched_parenthesis_iff_unbalanced(t: Seq<Token>)
    ensures
        parse(t) == Err::<Node, ParseError>(ParseError::MismatchedParenthesis) <==> !balanced(t),
{
    if balanced(t) {
        lemma_balanced_no_mismatch(t, 0, Seq::empty(), None);
    }
}

/// Integers joined by operators, with no parentheses: `n` integers at the
/// even positions and `n - 1` operators between them.
pub open spec fn is_flat_chain(t: Seq<Token>) -> bool {
    &&& t.len() % 2 == 1
    &&& forall|i: int| 0 <= i < t.len() && i % 2 == 0 ==> #[trigger] t[i] is Integer
    &&& forall|i: int|
        0 <= i < t.len() && i % 2 == 1 ==> (#[trigger] t[i] matches Token::Operator(op) && is_operator(op))
}

/// The first `m` tokens of a flat chain, combined from left to right.
pub open spec fn left_chain(t: Seq<Token>, m: int) -> Node
    decreases m,
{
    if m <= 1 {
        Node::Value(t[0]->Integer_0)
    } else {
        binary_node(t[m - 2]->Operator_0, left_chain(t, m - 2), Node::Value(t[m - 1]->Integer_0))
    }
}

proof fn lemma_no_parens_balanced(t: Seq<Token>, i: int)
    requires
        0 <= i <= t.len(),
        forall|j: int| i <= j < t.len() ==> !(#[trigger] t[j] is Lparen) && !(t[j] is Rparen),
    ensures
        balanced_from(t, i, 0),
    decreases t.len() - i,
{
    if i < t.len() {
        lemma_no_parens_balanced(t, i + 1);
    }
}

proof fn lemma_chain_reduce(t: Seq<Token>, m: int)
    requires
        is_flat_chain(t),
        1 <= m <= t.len(),
        m % 2 == 1,
    ensures
        reduce(t, m, seq![left_chain(t, m)], None) == Ok::<Node, ParseError>(left_chain(t, t.len() as int)),
    decreases t.len() - m,
{
    if m < t.len() {
        assert(t[m] matches Token::Operator(op) && is_operator(op));
        assert(t[m + 1] is Integer);
        let op = t[m]->Operator_0;
        let stack = seq![left_chain(t, m)];
        assert(reduce(t, m, stack, None) == reduce(t, m + 1, stack, Some(op)));
        assert(deliver(stack, Some(op), Node::Value(t[m + 1]->Integer_0)) =~= seq![left_chain(t, m + 2)]);
        lemma_chain_reduce(t, m + 2);
    }
}

/// With no precedence, a flat chain of operators combines strictly from left
/// to right: `2 + 3 * 4` is `(2 + 3) * 4`.
pub proof fn flat_chain_folds_left(t: Seq<Token>)
    requires
        is_flat_chain(t),
    ensures
        parse(t) == Ok::<Node, ParseError>(left_chain(t, t.len() as int)),
{
    assert(t[0] is Integer);
    assert forall|j: int| 0 <= j < t.len() implies !(#[trigger] t[j] is Lparen) && !(t[j] is Rparen) by {
        if j % 2 == 0 {
            assert(t[j] is Integer);
        } else {
            assert(t[j] is Operator);
        }
    }
    lemma_no_parens_balanced(t, 0);
    assert(deliver(Seq::empty(), None, Node::Value(t[0]->Integer_0)) =~= seq![left_chain(t, 1)]);
    lemma_chain_reduce(t, 1);
}

} // verus!
