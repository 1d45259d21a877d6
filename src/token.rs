//! Scanning text into tokens. A run of digits is one integer literal; each
//! of `+ - * / ( )` is a token of its own; every other character, whitespace
//! included, is skipped without producing a token.
use vstd::prelude::*;

verus! {

/// One lexical unit of an expression.
#[derive(Debug, Clone, Copy, PartialEq, Eq, Structural)]
pub enum Token {
    Operator(char),
    Integer(i32),
    Lparen,
    Rparen,
}

pub open spec fn is_digit(c: char) -> bool {
    '0' <= c && c <= '9'
}

pub open spec fn is_operator(c: char) -> bool {
    c == '+' || c == '-' || c == '*' || c == '/'
}

pub open spec fn digit_value(c: char) -> int {
    c as int - '0' as int
}

/// The tokens that a single character other than a digit stands for: one
/// token for an operator or a parenthesis, none for anything else.
pub open spec fn char_tokens(c: char) -> Seq<Token> {
    if is_operator(c) {
        seq![Token::Operator(c)]
    } else if c == '(' {
        seq![Token::Lparen]
    } else if c == ')' {
        seq![Token::Rparen]
    } else {
        Seq::empty()
    }
}

/// The literal that has been read so far, as a token sequence.
pub open spec fn flush(literal: Option<int>) -> Seq<Token> {
    match literal {
        Some(v) => seq![Token::Integer(v as i32)],
        None => Seq::empty(),
    }
}

/// The literal read so far, extended by one more digit `c`.
pub open spec fn extend_literal(literal: Option<int>, c: char) -> Option<int> {
    match literal {
        Some(v) => Some(v * 10 + digit_value(c)),
        None => Some(digit_value(c)),
    }
}

/// The tokens of `s` from position `i` on, where `literal` is the value of
/// the run of digits that ends just before `i`, if any. Digits accumulate into
/// one literal; any other character ends it and stands for its own tokens.
pub open spec fn scan_from(s: Seq<char>, i: int, literal: Option<int>) -> Seq<Token>
    decreases s.len() - i,
{
    if i >= s.len() {
        flush(literal)
    } else if is_digit(s[i]) {
        scan_from(s, i + 1, extend_literal(literal, s[i]))
    } else {
        flush(literal) + char_tokens(s[i]) + scan_from(s, i + 1, None)
    }
}

/// The tokens of the whole text `s`.
pub open spec fn scan(s: Seq<char>) -> Seq<Token> {
    scan_from(s, 0, None)
}

/// The literal read so far, if any, fits in an `i32`.
pub open spec fn literal_fits(literal: Option<int>) -> bool {
    match literal {
        Some(v) => v <= i32::MAX,
        None => true,
    }
}

/// Every run of digits of `s` from position `i` on (the first one continuing
/// `literal`) denotes a value that fits in an `i32`.
pub open spec fn literals_fit_from(s: Seq<char>, i: int, literal: Option<int>) -> bool
    decreases s.len() - i,
{
    if i >= s.len() {
        literal_fits(literal)
    } else if is_digit(s[i]) {
        literals_fit_from(s, i + 1, extend_literal(literal, s[i]))
    } else {
        literal_fits(literal) && literals_fit_from(s, i + 1, None)
    }
}

/// Every run of digits in `s` denotes a value that fits in an `i32`.
pub open spec fn literals_fit(s: Seq<char>) -> bool {
    literals_fit_from(s, 0, None)
}

proof fn lemma_literal_nonneg(literal: Option<int>, c: char)
    requires
        is_digit(c),
        literal matches Some(v) ==> v >= 0,
    ensures
        extend_literal(literal, c) matches Some(w) && w >= 0 && (literal matches Some(v) ==> v <= w),
{
    if let Some(v) = literal {
        assert(v * 10 >= v) by (nonlinear_arith)
            requires v >= 0;
    }
}

/// A literal that fits stays fitting up to its last digit: values only grow
/// along a run of digits.
proof fn lemma_fits_prefix(s: Seq<char>, i: int, literal: Option<int>)
    requires
        literals_fit_from(s, i, literal),
        literal matches Some(v) ==> v >= 0,
    ensures
        literal_fits(literal),
    decreases s.len() - i,
{
    if i < s.len() && is_digit(s[i]) {
        lemma_literal_nonneg(literal, s[i]);
        lemma_fits_prefix(s, i + 1, extend_literal(literal, s[i]));
    }
}

/// Scanning the characters that produce no token leaves the rest unchanged.
proof fn lemma_skip(s: Seq<char>, i: int)
    requires
        0 <= i < s.len(),
        !is_digit(s[i]),
        char_tokens(s[i]).len() == 0,
    ensures
        scan_from(s, i, None) == scan_from(s, i + 1, None),
        literals_fit_from(s, i, None) == literals_fit_from(s, i + 1, None),
{
    assert(flush(None) + char_tokens(s[i]) + scan_from(s, i + 1, None) =~= scan_from(s, i + 1, None));
}

/// A run of digits that ends at `i` yields its literal ahead of what follows.
proof fn lemma_end_of_literal(s: Seq<char>, i: int, v: int)
    requires
        0 <= i <= s.len(),
        i < s.len() ==> !is_digit(s[i]),
        literals_fit_from(s, i, Some(v)),
    ensures
        scan_from(s, i, Some(v)) == seq![Token::Integer(v as i32)] + scan_from(s, i, None),
        literals_fit_from(s, i, None),
{
    if i < s.len() {
        assert(flush(Some(v)) + char_tokens(s[i]) + scan_from(s, i + 1, None) =~= seq![Token::Integer(v as i32)]
            + (flush(None) + char_tokens(s[i]) + scan_from(s, i + 1, None)));
    } else {
        assert(flush(Some(v)) =~= seq![Token::Integer(v as i32)] + flush(None));
    }
}

fn char_is_digit(c: char) -> (r: bool)
    ensures
        r == is_digit(c),
{
    '0' <= c && c <= '9'
}

/// The token that a character other than a digit stands for, if any.
fn char_token(c: char) -> (r: Option<Token>)
    requires
        !is_digit(c),
    ensures
        r matches Some(t) ==> char_tokens(c) == seq![t],
        r is None ==> char_tokens(c).len() == 0,
{
    if c == '+' || c == '-' || c == '*' || c == '/' {
        Some(Token::Operator(c))
    } else if c == '(' {
        Some(Token::Lparen)
    } else if c == ')' {
        Some(Token::Rparen)
    } else {
        None
    }
}

/// Reads the next token of `chars` at or after `pos`: the token and the
/// position just past it, or `None` where no token is left.
pub fn parse_token(chars: &Vec<char>, pos: usize) -> (r: Option<(Token, usize)>)
    requires
        pos <= chars.len(),
        literals_fit_from(chars@, pos as int, None),
    ensures
        match r {
            None => scan_from(chars@, pos as int, None) == Seq::<Token>::empty(),
            Some((t, next)) => {
                &&& pos < next <= chars.len()
                &&& scan_from(chars@, pos as int, None) == seq![t] + scan_from(chars@, next as int, None)
                &&& literals_fit_from(chars@, next as int, None)
            },
        },
{
    let ghost s = chars@;
    let mut i: usize = pos;
    while i < chars.len()
        invariant
            pos <= i <= chars.len(),
            s == chars@,
            scan_from(s, pos as int, None) == scan_from(s, i as int, None),
            literals_fit_from(s, i as int, None),
        decreases chars.len() - i,
    {
        let c = chars[i];
        if char_is_digit(c) {
            let mut value: i32 = (c as u32 - '0' as u32) as i32;
            let mut j: usize = i + 1;
            assert(extend_literal(None, c) == Some(value as int));
            while j < chars.len() && char_is_digit(chars[j])
                invariant
                    i < j <= chars.len(),
                    s == chars@,
                    value >= 0,
                    scan_from(s, pos as int, None) == scan_from(s, j as int, Some(value as int)),
                    literals_fit_from(s, j as int, Some(value as int)),
                decreases chars.len() - j,
            {
                let d = chars[j];
                let ghost next = extend_literal(Some(value as int), d);
                proof {
                    lemma_literal_nonneg(Some(value as int), d);
                    lemma_fits_prefix(s, j + 1, next);
                }
                value = value * 10 + (d as u32 - '0' as u32) as i32;
                j = j + 1;
            }
            proof {
                lemma_end_of_literal(s, j as int, value as int);
            }
            return Some((Token::Integer(value), j));
        }
        match char_token(c) {
            Some(t) => {
                assert(scan_from(s, i as int, None) =~= seq![t] + scan_from(s, i + 1, None));
                return Some((t, i + 1));
            },
            None => {
                proof {
                    lemma_skip(s, i as int);
                }
                i = i + 1;
            },
        }
    }
    None
}

/// The characters of `text`, in order.
fn chars_of(text: &str) -> (r: Vec<char>)
    ensures
        r@ == text@,
{
    let mut r: Vec<char> = Vec::new();
    for c in it: text.chars()
        invariant
            it.seq() == text@,
            r@ == it.seq().take(it.index() as int),
    {
        r.push(c);
    }
    r
}

/// The tokens of a text, produced one at a time.
pub struct Tokens {
    chars: Vec<char>,
    pos: usize,
}

impl View for Tokens {
    /// The tokens that are still to come.
    type V = Seq<Token>;

    closed spec fn view(&self) -> Seq<Token> {
        scan_from(self.chars@, self.pos as int, None)
    }
}

impl Tokens {
    /// The position lies within the text and every literal ahead fits.
    pub closed spec fn wf(&self) -> bool {
        &&& self.pos <= self.chars.len()
        &&& literals_fit_from(self.chars@, self.pos as int, None)
    }

    pub fn new(text: &str) -> (r: Tokens)
        requires
            literals_fit(text@),
        ensures
            r.wf(),
            r@ == scan(text@),
    {
        Tokens { chars: chars_of(text), pos: 0 }
    }

    /// The next token, or `None` once the text is used up.
    pub fn next(&mut self) -> (r: Option<Token>)
        requires
            old(self).wf(),
        ensures
            final(self).wf(),
            match r {
                None => old(self)@ == Seq::<Token>::empty() && final(self)@ == old(self)@,
                Some(t) => old(self)@ == seq![t] + final(self)@,
            },
    {
        match parse_token(&self.chars, self.pos) {
            Some((t, next)) => {
                self.pos = next;
                Some(t)
            },
            None => None,
        }
    }
}

/// All the tokens of `text`, in order.
pub fn to_tokens(text: &str) -> (r: Vec<Token>)
    requires
        literals_fit(text@),
    ensures
        r@ == scan(text@),
{
    let mut tokens: Vec<Token> = Vec::new();
    let mut rest = Tokens::new(text);
    loop
        invariant
            rest.wf(),
            tokens@ + rest@ == scan(text@),
        decreases rest@.len(),
    {
        match rest.next() {
            Some(t) => {
                assert(tokens@.push(t) + rest@ =~= tokens@ + (seq![t] + rest@));
                tokens.push(t);
            },
            None => {
                assert(tokens@ + rest@ =~= tokens@);
                return tokens;
            },
        }
    }
}

/// The value of a literal read so far, as a mathematical integer.
pub open spec fn widen(literal: Option<i32>) -> Option<int> {
    match literal {
        Some(v) => Some(v as int),
        None => None,
    }
}

/// All the tokens of `text`, or `None` where a run of digits in it denotes a
/// value beyond `i32`.
pub fn to_tokens_checked(text: &str) -> (r: Option<Vec<Token>>)
    ensures
        r is Some <==> literals_fit(text@),
        r matches Some(tokens) ==> tokens@ == scan(text@),
{
    let chars = chars_of(text);
    let ghost s = chars@;
    let mut literal: Option<i32> = None;
    let mut i: usize = 0;
    while i < chars.len()
        invariant
            i <= chars.len(),
            s == chars@,
            s == text@,
            literal matches Some(v) ==> v >= 0,
            literals_fit(s) == literals_fit_from(s, i as int, widen(literal)),
        decreases chars.len() - i,
    {
        let c = chars[i];
        if char_is_digit(c) {
            let d = (c as u32 - '0' as u32) as i32;
            let old_value: i32 = match literal {
                Some(v) => v,
                None => 0,
            };
            let ghost next = extend_literal(widen(literal), c);
            assert(next == Some(old_value * 10 + d));
            match old_value.checked_mul(10) {
                Some(m) => match m.checked_add(d) {
                    Some(v) => {
                        literal = Some(v);
                    },
                    None => {
                        proof {
                            if literals_fit(s) {
                                lemma_fits_prefix(s, i + 1, next);
                            }
                        }
                        return None;
                    },
                },
                None => {
                    proof {
                        if literals_fit(s) {
                            lemma_fits_prefix(s, i + 1, next);
                        }
                    }
                    return None;
                },
            }
        } else {
            literal = None;
        }
        i = i + 1;
    }
    Some(to_tokens(text))
}

/// A character that produces no token: whitespace, and any other character
/// that is neither a digit, an operator nor a parenthesis. Like any non-digit,
/// it ends a literal.
pub open spec fn is_separator(c: char) -> bool {
    !is_digit(c) && char_tokens(c).len() == 0
}

/// Scanning depends only on the characters from `i` on.
proof fn lemma_same_suffix(x: Seq<char>, i: int, y: Seq<char>, j: int, literal: Option<int>)
    requires
        0 <= i <= x.len(),
        0 <= j <= y.len(),
        x.subrange(i, x.len() as int) == y.subrange(j, y.len() as int),
    ensures
        scan_from(x, i, literal) == scan_from(y, j, literal),
    decreases x.len() - i,
{
    let xs = x.subrange(i, x.len() as int);
    let ys = y.subrange(j, y.len() as int);
    assert(xs.len() == x.len() - i);
    assert(ys.len() == y.len() - j);
    if i < x.len() {
        assert(x[i] == xs[0]);
        assert(y[j] == ys[0]);
        assert(x.subrange(i + 1, x.len() as int) =~= xs.drop_first());
        assert(y.subrange(j + 1, y.len() as int) =~= ys.drop_first());
        lemma_same_suffix(x, i + 1, y, j + 1, extend_literal(literal, x[i]));
        lemma_same_suffix(x, i + 1, y, j + 1, None);
    }
}

/// A run of separators ends the literal before it and yields nothing.
proof fn lemma_skip_separators(s: Seq<char>, i: int, n: int, literal: Option<int>)
    requires
        0 <= i,
        1 <= n,
        i + n <= s.len(),
        forall|k: int| i <= k < i + n ==> is_separator(#[trigger] s[k]),
    ensures
        scan_from(s, i, literal) == flush(literal) + scan_from(s, i + n, None),
    decreases n,
{
    assert(is_separator(s[i]));
    assert(flush(literal) + char_tokens(s[i]) =~= flush(literal));
    if n > 1 {
        lemma_skip_separators(s, i + 1, n - 1, None);
        assert(flush(None) + scan_from(s, i + n, None) =~= scan_from(s, i + n, None));
    }
}

/// Where a non-empty run of separators `w` follows `a`, scanning `a + w + b`
/// and `a + b` from the end of `a` agree, unless a literal is open there and
/// `b` would continue it.
proof fn lemma_gap(a: Seq<char>, w: Seq<char>, b: Seq<char>, literal: Option<int>)
    requires
        w.len() > 0,
        forall|k: int| 0 <= k < w.len() ==> is_separator(#[trigger] w[k]),
        literal is None || b.len() == 0 || !is_digit(b[0]),
    ensures
        scan_from(a + w + b, a.len() as int, literal) == scan_from(a + b, a.len() as int, literal),
{
    let x = a + w + b;
    let y = a + b;
    let p = a.len() as int;
    assert forall|k: int| p <= k < p + w.len() implies is_separator(#[trigger] x[k]) by {
        assert(x[k] == w[k - p]);
    }
    lemma_skip_separators(x, p, w.len() as int, literal);
    assert(x.subrange(p + w.len(), x.len() as int) =~= y.subrange(p, y.len() as int));
    lemma_same_suffix(x, p + w.len(), y, p, None);
    if b.len() == 0 {
        assert(flush(literal) + flush(None) =~= flush(literal));
    } else {
        assert(y[p] == b[0]);
        if literal is None {
            assert(flush(literal) + scan_from(y, p, None) =~= scan_from(y, p, None));
        } else {
            assert(flush(literal) + (flush(None) + char_tokens(y[p]) + scan_from(y, p + 1, None))
                =~= flush(literal) + char_tokens(y[p]) + scan_from(y, p + 1, None));
        }
    }
}

proof fn lemma_prefix(a: Seq<char>, w: Seq<char>, b: Seq<char>, i: int, literal: Option<int>)
    requires
        w.len() > 0,
        forall|k: int| 0 <= k < w.len() ==> is_separator(#[trigger] w[k]),
        !(a.len() > 0 && is_digit(a.last()) && b.len() > 0 && is_digit(b[0])),
        0 <= i <= a.len(),
        i == a.len() ==> (literal is None || b.len() == 0 || !is_digit(b[0])),
    ensures
        scan_from(a + w + b, i, literal) == scan_from(a + b, i, literal),
    decreases a.len() - i,
{
    if i == a.len() {
        lemma_gap(a, w, b, literal);
    } else {
        assert((a + w + b)[i] == a[i]);
        assert((a + b)[i] == a[i]);
        if is_digit(a[i]) {
            assert(i + 1 == a.len() ==> a.last() == a[i]);
            lemma_prefix(a, w, b, i + 1, extend_literal(literal, a[i]));
        } else {
            lemma_prefix(a, w, b, i + 1, None);
        }
    }
}

/// Separators between tokens do not matter: `2+2` and `2 + 2` scan alike.
/// The one exception is a separator between two digits, which splits one
/// literal into two.
pub proof fn separators_are_insignificant(a: Seq<char>, w: Seq<char>, b: Seq<char>)
    requires
        forall|k: int| 0 <= k < w.len() ==> is_separator(#[trigger] w[k]),
        w.len() == 0 || !(a.len() > 0 && is_digit(a.last()) && b.len() > 0 && is_digit(b[0])),
    ensures
        scan(a + w + b) == scan(a + b),
{
    if w.len() == 0 {
        assert(a + w + b =~= a + b);
    } else {
        lemma_prefix(a, w, b, 0, None);
    }
}

} // verus!
