//! Restricted, deterministic parameter expressions.
//!
//! Expressions are stored as editable source text and are parsed every time
//! they are admitted to a document. The grammar excludes functions, units,
//! assignment, and arbitrary identifiers beyond a conservative ASCII
//! parameter-name syntax:
//!
//! ```text
//! expression = sum
//! sum        = product (("+" | "-") product)*
//! product    = unary (("*" | "/") unary)*
//! unary      = ("+" | "-") unary | primary
//! primary    = number | identifier | "(" expression ")"
//! ```
//!
//! Tokens are produced lazily by the parser; the specification below models
//! that by lexing up to the first lexical error and letting the parser fail
//! on that error only when it advances onto it.

use vstd::prelude::*;

use crate::decimal::{
    MAX_SIGNIFICAND, all_digits, decide_below_threshold, digits_value, scaled_below_threshold,
};
use crate::text::{
    chars_lt, str_less, lemma_chars_lt_asymmetric, lemma_chars_lt_total,
    lemma_chars_lt_transitive, str_chars, string_push, trim_to_string, trimmed, decimal,
    push_decimal, push_str,
};

verus! {

pub const MAX_EXPRESSION_BYTES: usize = 4096;

pub const MAX_EXPRESSION_NODES: usize = 256;

pub const MAX_EXPRESSION_DEPTH: usize = 64;

#[derive(Clone, Debug, PartialEq, Eq)]
pub enum ExpressionError {
    Empty,
    TooLong { limit: usize },
    InvalidCharacter { position: usize },
    InvalidNumber { position: usize },
    UnexpectedToken { position: usize },
    UnexpectedEnd,
    NestingLimit { limit: usize },
    NodeLimit { limit: usize },
    UnknownParameter(String),
    DuplicateParameterName(String),
    DependencyCycle(Vec<String>),
    DivisionByZero,
    NonFiniteResult,
}

/// Names joined by `" -> "`.
pub open spec fn join_arrows(names: Seq<Seq<char>>) -> Seq<char>
    decreases names.len(),
{
    if names.len() == 0 {
        Seq::empty()
    } else if names.len() == 1 {
        names[0]
    } else {
        join_arrows(names.drop_last()) + " -> "@ + names.last()
    }
}

/// The text an expression error reads as.
pub open spec fn expression_error_text(e: ExpressionError) -> Seq<char> {
    match e {
        ExpressionError::Empty => "parameter expression cannot be empty"@,
        ExpressionError::TooLong { limit } => "parameter expression exceeds the "@ + decimal(
            limit as nat,
        ) + "-byte limit"@,
        ExpressionError::InvalidCharacter { position } => "invalid expression character at byte "@
            + decimal(position as nat),
        ExpressionError::InvalidNumber { position } => "invalid number at byte "@ + decimal(
            position as nat,
        ),
        ExpressionError::UnexpectedToken { position } => "unexpected expression token at byte "@
            + decimal(position as nat),
        ExpressionError::UnexpectedEnd => "expression ended unexpectedly"@,
        ExpressionError::NestingLimit { limit } => "expression nesting exceeds the "@ + decimal(
            limit as nat,
        ) + "-level limit"@,
        ExpressionError::NodeLimit { limit } => "expression has more than "@ + decimal(limit as nat)
            + " nodes"@,
        ExpressionError::UnknownParameter(name) => "unknown parameter "@ + name@,
        ExpressionError::DuplicateParameterName(name) => "parameter name "@ + name@
            + " is not unique"@,
        ExpressionError::DependencyCycle(names) => "parameter dependency cycle: "@ + join_arrows(
            string_views(names@),
        ),
        ExpressionError::DivisionByZero => "parameter expression divides by zero"@,
        ExpressionError::NonFiniteResult => "parameter expression produced a non-finite result"@,
    }
}

impl ExpressionError {
    /// The error as text.
    pub fn message(&self) -> (s: String)
        ensures
            s@ == expression_error_text(*self),
    {
        let mut s = String::new();
        match self {
            ExpressionError::Empty => push_str(&mut s, "parameter expression cannot be empty"),
            ExpressionError::TooLong { limit } => {
                push_str(&mut s, "parameter expression exceeds the ");
                push_decimal(&mut s, *limit as u64);
                push_str(&mut s, "-byte limit");
            },
            ExpressionError::InvalidCharacter { position } => {
                push_str(&mut s, "invalid expression character at byte ");
                push_decimal(&mut s, *position as u64);
            },
            ExpressionError::InvalidNumber { position } => {
                push_str(&mut s, "invalid number at byte ");
                push_decimal(&mut s, *position as u64);
            },
            ExpressionError::UnexpectedToken { position } => {
                push_str(&mut s, "unexpected expression token at byte ");
                push_decimal(&mut s, *position as u64);
            },
            ExpressionError::UnexpectedEnd => push_str(&mut s, "expression ended unexpectedly"),
            ExpressionError::NestingLimit { limit } => {
                push_str(&mut s, "expression nesting exceeds the ");
                push_decimal(&mut s, *limit as u64);
                push_str(&mut s, "-level limit");
            },
            ExpressionError::NodeLimit { limit } => {
                push_str(&mut s, "expression has more than ");
                push_decimal(&mut s, *limit as u64);
                push_str(&mut s, " nodes");
            },
            ExpressionError::UnknownParameter(name) => {
                push_str(&mut s, "unknown parameter ");
                push_str(&mut s, name.as_str());
            },
            ExpressionError::DuplicateParameterName(name) => {
                push_str(&mut s, "parameter name ");
                push_str(&mut s, name.as_str());
                push_str(&mut s, " is not unique");
            },
            ExpressionError::DependencyCycle(names) => {
                push_str(&mut s, "parameter dependency cycle: ");
                let ghost start = s@;
                let mut i: usize = 0;
                while i < names.len()
                    invariant
                        i <= names@.len(),
                        s@ == start + join_arrows(string_views(names@.take(i as int))),
                    decreases names@.len() - i,
                {
                    proof {
                        assert(string_views(names@.take(i + 1)).drop_last() =~= string_views(
                            names@.take(i as int),
                        ));
                    }
                    if i > 0 {
                        push_str(&mut s, " -> ");
                    }
                    push_str(&mut s, names[i].as_str());
                    i += 1;
                    proof {
                        let v = string_views(names@.take(i as int));
                        assert(v.last() == names@[i - 1]@);
                        if i == 1 {
                            assert(v =~= seq![names@[0]@]);
                        }
                    }
                }
                proof {
                    assert(names@.take(names@.len() as int) =~= names@);
                }
            },
            ExpressionError::DivisionByZero => push_str(&mut s, "parameter expression divides by zero"),
            ExpressionError::NonFiniteResult => push_str(
                &mut s,
                "parameter expression produced a non-finite result",
            ),
        }
        proof {
            assert(s@ =~= expression_error_text(*self));
        }
        s
    }
}

// ---------------------------------------------------------------------------
// Byte classes
// ---------------------------------------------------------------------------

pub open spec fn is_ascii_alpha(b: u8) -> bool {
    (65 <= b && b <= 90) || (97 <= b && b <= 122)
}

pub open spec fn is_ascii_digit(b: u8) -> bool {
    48 <= b && b <= 57
}

/// `u8::is_ascii_whitespace`: space, tab, line feed, form feed, carriage return.
pub open spec fn is_ascii_space(b: u8) -> bool {
    b == 32 || b == 9 || b == 10 || b == 12 || b == 13
}

pub open spec fn is_name_start(b: u8) -> bool {
    is_ascii_alpha(b) || b == 95
}

pub open spec fn is_name_continue(b: u8) -> bool {
    is_ascii_alpha(b) || is_ascii_digit(b) || b == 95
}

/// Byte classes scanned by the lexer: white space, identifier tail, digits.
pub open spec fn in_class(class: int, b: u8) -> bool {
    if class == 0 {
        is_ascii_space(b)
    } else if class == 1 {
        is_name_continue(b)
    } else {
        is_ascii_digit(b)
    }
}

/// First position at or after `p` whose byte is outside `class`.
pub open spec fn scan(b: Seq<u8>, p: int, class: int) -> int
    decreases b.len() - p,
{
    if 0 <= p < b.len() && in_class(class, b[p]) {
        scan(b, p + 1, class)
    } else {
        p
    }
}

/// A stable parameter symbol: an ASCII letter or `_`, then letters, digits, `_`.
pub open spec fn valid_parameter_name(b: Seq<u8>) -> bool {
    &&& b.len() > 0
    &&& is_name_start(b[0])
    &&& forall|i: int| 1 <= i < b.len() ==> is_name_continue(#[trigger] b[i])
}

/// The characters of an ASCII byte string.
pub open spec fn ascii_text(b: Seq<u8>) -> Seq<char> {
    b.map_values(|x: u8| x as char)
}

// ---------------------------------------------------------------------------
// Lexer
// ---------------------------------------------------------------------------

#[derive(Clone, Copy, Debug, PartialEq, Eq, Structural)]
pub enum TokenKind {
    Number,
    Identifier,
    Plus,
    Minus,
    Star,
    Slash,
    LeftParenthesis,
    RightParenthesis,
    End,
}

/// One token with its byte span in the source.
#[derive(Clone, Copy, Debug, PartialEq, Eq, Structural)]
pub struct Token {
    pub kind: TokenKind,
    pub start: usize,
    pub end: usize,
}

/// A number token whose literal value, `mantissa * 10^scale`, rounds to a
/// finite binary64 number; any other literal is an invalid number.
pub open spec fn number_token(s: int, e: int, mantissa: Seq<u8>, scale: int) -> Result<
    Token,
    ExpressionError,
> {
    if scaled_below_threshold(mantissa, scale) {
        Ok(Token { kind: TokenKind::Number, start: s as usize, end: e as usize })
    } else {
        Err(ExpressionError::InvalidNumber { position: s as usize })
    }
}

/// A number: digits, an optional `.` and digits (at least one digit in all),
/// then an optional exponent `e`/`E`, sign, and at least one digit.
pub open spec fn lex_number(b: Seq<u8>, s: int) -> Result<Token, ExpressionError> {
    let a = scan(b, s, 2);
    let has_dot = 0 <= a < b.len() && b[a] == 46;
    let c = if has_dot {
        scan(b, a + 1, 2)
    } else {
        a
    };
    let fraction = if has_dot {
        c - (a + 1)
    } else {
        0
    };
    let mantissa = if has_dot {
        b.subrange(s, a) + b.subrange(a + 1, c)
    } else {
        b.subrange(s, a)
    };
    if a == s && fraction == 0 {
        Err(ExpressionError::InvalidNumber { position: s as usize })
    } else if 0 <= c < b.len() && (b[c] == 101 || b[c] == 69) {
        let signed = c + 1 < b.len() && (b[c + 1] == 43 || b[c + 1] == 45);
        let negative = signed && b[c + 1] == 45;
        let d = if signed {
            c + 2
        } else {
            c + 1
        };
        let f = scan(b, d, 2);
        let exponent = digits_value(b.subrange(d, f));
        if f == d {
            Err(ExpressionError::InvalidNumber { position: s as usize })
        } else {
            number_token(
                s,
                f,
                mantissa,
                (if negative {
                    -exponent
                } else {
                    exponent
                }) - fraction,
            )
        }
    } else {
        number_token(s, c, mantissa, -fraction)
    }
}

pub open spec fn simple_token(kind: TokenKind, s: int) -> Result<Token, ExpressionError> {
    Ok(Token { kind, start: s as usize, end: (s + 1) as usize })
}

/// The token that starts after the white space at `p`.
pub open spec fn lex_at(b: Seq<u8>, p: int) -> Result<Token, ExpressionError> {
    let s = scan(b, p, 0);
    if s >= b.len() {
        Ok(Token { kind: TokenKind::End, start: s as usize, end: s as usize })
    } else {
        let c = b[s];
        if c == 43 {
            simple_token(TokenKind::Plus, s)
        } else if c == 45 {
            simple_token(TokenKind::Minus, s)
        } else if c == 42 {
            simple_token(TokenKind::Star, s)
        } else if c == 47 {
            simple_token(TokenKind::Slash, s)
        } else if c == 40 {
            simple_token(TokenKind::LeftParenthesis, s)
        } else if c == 41 {
            simple_token(TokenKind::RightParenthesis, s)
        } else if is_name_start(c) {
            Ok(Token { kind: TokenKind::Identifier, start: s as usize, end: scan(b, s + 1, 1) as usize })
        } else if is_ascii_digit(c) || c == 46 {
            lex_number(b, s)
        } else {
            Err(ExpressionError::InvalidCharacter { position: s as usize })
        }
    }
}

/// Tokens from `p` up to and including `End` or the first lexical error.
pub open spec fn lex_from(b: Seq<u8>, p: int) -> Seq<Result<Token, ExpressionError>>
    decreases b.len() - p,
{
    match lex_at(b, p) {
        Err(e) => seq![Err(e)],
        Ok(t) => {
            if t.kind != TokenKind::End && p < t.end && t.end <= b.len() {
                seq![Ok(t)] + lex_from(b, t.end as int)
            } else {
                seq![Ok(t)]
            }
        },
    }
}

proof fn lemma_scan(b: Seq<u8>, p: int, q: int, class: int)
    requires
        0 <= p <= q <= b.len(),
        forall|j: int| p <= j < q ==> in_class(class, #[trigger] b[j]),
        q == b.len() || !in_class(class, b[q]),
    ensures
        scan(b, p, class) == q,
    decreases q - p,
{
    if p < q {
        lemma_scan(b, p + 1, q, class);
    }
}

fn scan_exec(b: &[u8], p: usize, class: u8) -> (q: usize)
    requires
        p <= b@.len(),
        class <= 2,
    ensures
        q == scan(b@, p as int, class as int),
        p <= q <= b@.len(),
        forall|j: int| p <= j < q ==> in_class(class as int, #[trigger] b@[j]),
{
    let mut q = p;
    while q < b.len() && byte_in_class(class, b[q])
        invariant
            p <= q <= b@.len(),
            class <= 2,
            forall|j: int| p <= j < q ==> in_class(class as int, #[trigger] b@[j]),
        decreases b@.len() - q,
    {
        q += 1;
    }
    proof {
        lemma_scan(b@, p as int, q as int, class as int);
    }
    q
}

fn byte_in_class(class: u8, c: u8) -> (r: bool)
    ensures
        r == in_class(class as int, c),
{
    if class == 0 {
        c == 32 || c == 9 || c == 10 || c == 12 || c == 13
    } else if class == 1 {
        (65 <= c && c <= 90) || (97 <= c && c <= 122) || (48 <= c && c <= 57) || c == 95
    } else {
        48 <= c && c <= 57
    }
}

/// A lexed token lies inside the source, after the position lexing began.
pub open spec fn token_in_bounds(t: Token, p: int, len: int) -> bool {
    &&& p <= t.start <= t.end <= len
    &&& t.kind != TokenKind::End ==> t.start < t.end
}

fn lex_number_exec(b: &[u8], s: usize) -> (r: Result<Token, ExpressionError>)
    requires
        s < b@.len() <= MAX_SIGNIFICAND,
    ensures
        r == lex_number(b@, s as int),
        r matches Ok(t) ==> token_in_bounds(t, s as int, b@.len() as int),
        r matches Err(e) ==> is_lexical(e),
{
    let a = scan_exec(b, s, 2);
    let has_dot = a < b.len() && b[a] == 46;
    let c = if has_dot {
        scan_exec(b, a + 1, 2)
    } else {
        a
    };
    if a == s && (!has_dot || c == a + 1) {
        return Err(ExpressionError::InvalidNumber { position: s });
    }
    let fraction = if has_dot {
        c - (a + 1)
    } else {
        0
    };
    let mut mantissa: Vec<u8> = Vec::new();
    copy_span(b, s, a, &mut mantissa);
    if has_dot {
        copy_span(b, a + 1, c, &mut mantissa);
    }
    proof {
        assert(mantissa@ =~= if has_dot {
            b@.subrange(s as int, a as int) + b@.subrange(a + 1, c as int)
        } else {
            b@.subrange(s as int, a as int)
        });
        assert(all_digits(mantissa@)) by {
            assert forall|i: int| 0 <= i < mantissa@.len() implies 48 <= #[trigger] mantissa@[i] <= 57 by {
                if i < a - s {
                    assert(mantissa@[i] == b@[s + i]);
                    assert(in_class(2, b@[s + i]));
                } else {
                    assert(mantissa@[i] == b@[a + 1 + (i - (a - s))]);
                    assert(in_class(2, b@[a + 1 + (i - (a - s))]));
                }
            }
        }
    }
    let (e, negative, exponent_start, exponent_end) = if c < b.len() && (b[c] == 101 || b[c] == 69) {
        let signed = c + 1 < b.len() && (b[c + 1] == 43 || b[c + 1] == 45);
        let negative = signed && b[c + 1] == 45;
        let d = if signed {
            c + 2
        } else {
            c + 1
        };
        let f = scan_exec(b, d, 2);
        if f == d {
            return Err(ExpressionError::InvalidNumber { position: s });
        }
        (f, negative, d, f)
    } else {
        (c, false, c, c)
    };
    let exponent = slice_range(b, exponent_start, exponent_end);
    proof {
        assert(all_digits(exponent@)) by {
            assert forall|i: int| 0 <= i < exponent@.len() implies 48 <= #[trigger] exponent@[i] <= 57 by {
                assert(exponent@[i] == b@[exponent_start + i]);
                assert(in_class(2, b@[exponent_start + i]));
            }
        }
        if exponent_start == exponent_end {
            assert(exponent@.len() == 0);
            assert(digits_value(exponent@) == 0);
        }
    }
    if decide_below_threshold(&mantissa, exponent, negative, fraction) {
        Ok(Token { kind: TokenKind::Number, start: s, end: e })
    } else {
        Err(ExpressionError::InvalidNumber { position: s })
    }
}

/// Appends `b[start..end]` to `out`.
fn copy_span(b: &[u8], start: usize, end: usize, out: &mut Vec<u8>)
    requires
        start <= end <= b@.len(),
    ensures
        final(out)@ == old(out)@ + b@.subrange(start as int, end as int),
{
    let mut i = start;
    while i < end
        invariant
            start <= i <= end <= b@.len(),
            out@ == old(out)@ + b@.subrange(start as int, i as int),
        decreases end - i,
    {
        out.push(b[i]);
        proof {
            assert(b@.subrange(start as int, i + 1) =~= b@.subrange(start as int, i as int).push(b@[i as int]));
        }
        i += 1;
    }
}

/// `&b[start..end]`.
pub fn slice_range(b: &[u8], start: usize, end: usize) -> (r: &[u8])
    requires
        start <= end <= b@.len(),
    ensures
        r@ == b@.subrange(start as int, end as int),
{
    let (left, _) = b.split_at(end);
    let (_, right) = left.split_at(start);
    proof {
        assert(right@ =~= b@.subrange(start as int, end as int));
    }
    right
}

fn lex_at_exec(b: &[u8], p: usize) -> (r: Result<Token, ExpressionError>)
    requires
        p <= b@.len() <= MAX_SIGNIFICAND,
    ensures
        r == lex_at(b@, p as int),
        r matches Ok(t) ==> token_in_bounds(t, p as int, b@.len() as int),
        r matches Err(e) ==> is_lexical(e),
{
    let s = scan_exec(b, p, 0);
    if s >= b.len() {
        return Ok(Token { kind: TokenKind::End, start: s, end: s });
    }
    let c = b[s];
    if c == 43 {
        Ok(Token { kind: TokenKind::Plus, start: s, end: s + 1 })
    } else if c == 45 {
        Ok(Token { kind: TokenKind::Minus, start: s, end: s + 1 })
    } else if c == 42 {
        Ok(Token { kind: TokenKind::Star, start: s, end: s + 1 })
    } else if c == 47 {
        Ok(Token { kind: TokenKind::Slash, start: s, end: s + 1 })
    } else if c == 40 {
        Ok(Token { kind: TokenKind::LeftParenthesis, start: s, end: s + 1 })
    } else if c == 41 {
        Ok(Token { kind: TokenKind::RightParenthesis, start: s, end: s + 1 })
    } else if (65 <= c && c <= 90) || (97 <= c && c <= 122) || c == 95 {
        let e = scan_exec(b, s + 1, 1);
        Ok(Token { kind: TokenKind::Identifier, start: s, end: e })
    } else if (48 <= c && c <= 57) || c == 46 {
        lex_number_exec(b, s)
    } else {
        Err(ExpressionError::InvalidCharacter { position: s })
    }
}

/// Every token of a lexed sequence lies in the source.
pub open spec fn tokens_in_bounds(toks: Seq<Result<Token, ExpressionError>>, len: int) -> bool {
    forall|k: int|
        0 <= k < toks.len() ==> match #[trigger] toks[k] {
            Ok(t) => t.start <= t.end <= len,
            Err(e) => is_lexical(e),
        }
}

/// Every error item of a lexed sequence is a lexical error.
pub open spec fn errors_lexical(toks: Seq<Result<Token, ExpressionError>>) -> bool {
    forall|k: int| 0 <= k < toks.len() ==> (#[trigger] toks[k] matches Err(e) ==> is_lexical(e))
}

/// Lexes the whole source into `lex_from(b, 0)`.
pub fn tokenize(b: &[u8]) -> (toks: Vec<Result<Token, ExpressionError>>)
    requires
        b@.len() <= MAX_EXPRESSION_BYTES,
    ensures
        toks@ == lex_from(b@, 0),
        toks@.len() > 0,
        tokens_in_bounds(toks@, b@.len() as int),
        errors_lexical(toks@),
{
    let mut toks: Vec<Result<Token, ExpressionError>> = Vec::new();
    let mut p: usize = 0;
    loop
        invariant
            p <= b@.len() <= MAX_EXPRESSION_BYTES,
            toks@ + lex_from(b@, p as int) == lex_from(b@, 0),
            tokens_in_bounds(toks@, b@.len() as int),
            errors_lexical(toks@),
        decreases b@.len() - p,
    {
        let item = lex_at_exec(b, p);
        proof {
            assert(lex_from(b@, p as int)[0] == item);
        }
        match item {
            Err(e) => {
                proof {
                    assert(lex_from(b@, p as int) =~= seq![item]);
                }
                toks.push(Err(e));
                return toks;
            },
            Ok(t) => {
                toks.push(Ok(t));
                if t.kind == TokenKind::End {
                    proof {
                        assert(lex_from(b@, p as int) =~= seq![item]);
                    }
                    return toks;
                }
                proof {
                    assert(lex_from(b@, p as int) =~= seq![item] + lex_from(b@, t.end as int));
                    assert(toks@ + lex_from(b@, t.end as int) =~= toks@.drop_last() + lex_from(
                        b@,
                        p as int,
                    ));
                }
                p = t.end;
            },
        }
    }
}

// ---------------------------------------------------------------------------
// Parser
// ---------------------------------------------------------------------------

/// Parsed expression. Numbers and parameter names refer to byte spans of the
/// source; the numeric value of a span is read only by evaluation.
#[derive(Debug)]
pub enum Expression {
    Number { start: usize, end: usize },
    Parameter { start: usize, end: usize },
    Negate(Box<Expression>),
    Add(Box<Expression>, Box<Expression>),
    Subtract(Box<Expression>, Box<Expression>),
    Multiply(Box<Expression>, Box<Expression>),
    Divide(Box<Expression>, Box<Expression>),
}

/// Parser state after one production: the tree, the current token index,
/// and the number of nodes created so far.
pub type ParseStep = Result<(Expression, int, int), ExpressionError>;

pub open spec fn lift(r: Result<(Expression, usize, usize), ExpressionError>) -> ParseStep {
    match r {
        Ok((e, i, n)) => Ok((e, i as int, n as int)),
        Err(err) => Err(err),
    }
}

pub open spec fn tok_at(toks: Seq<Result<Token, ExpressionError>>, i: int) -> Token {
    if 0 <= i < toks.len() && toks[i] is Ok {
        toks[i]->Ok_0
    } else {
        Token { kind: TokenKind::End, start: 0, end: 0 }
    }
}

/// Moves to the next token, failing with the lexical error found there.
pub open spec fn advance(toks: Seq<Result<Token, ExpressionError>>, i: int) -> Result<
    int,
    ExpressionError,
> {
    if 0 <= i && i + 1 < toks.len() {
        match toks[i + 1] {
            Ok(_) => Ok(i + 1),
            Err(e) => Err(e),
        }
    } else {
        Err(ExpressionError::UnexpectedEnd)
    }
}

/// Counts one more node against `MAX_EXPRESSION_NODES`.
pub open spec fn count_node(n: int) -> Result<int, ExpressionError> {
    if n + 1 > MAX_EXPRESSION_NODES {
        Err(ExpressionError::NodeLimit { limit: MAX_EXPRESSION_NODES })
    } else {
        Ok(n + 1)
    }
}

pub open spec fn parse_sum(
    toks: Seq<Result<Token, ExpressionError>>,
    i: int,
    depth: int,
    n: int,
) -> ParseStep
    decreases toks.len() - i, 3int,
{
    if 0 <= i < toks.len() {
        match parse_product(toks, i, depth, n) {
            Err(e) => Err(e),
            Ok((left, i2, n2)) => {
                if i < i2 < toks.len() {
                    parse_sum_rest(toks, i2, depth, n2, left)
                } else {
                    Err(ExpressionError::UnexpectedEnd)
                }
            },
        }
    } else {
        Err(ExpressionError::UnexpectedEnd)
    }
}

pub open spec fn parse_sum_rest(
    toks: Seq<Result<Token, ExpressionError>>,
    i: int,
    depth: int,
    n: int,
    left: Expression,
) -> ParseStep
    decreases toks.len() - i, 4int,
{
    let kind = tok_at(toks, i).kind;
    if 0 <= i && i + 1 < toks.len() && (kind == TokenKind::Plus || kind == TokenKind::Minus) {
        match toks[i + 1] {
            Err(e) => Err(e),
            Ok(_) => match parse_product(toks, i + 1, depth, n) {
                Err(e) => Err(e),
                Ok((right, i2, n2)) => match count_node(n2) {
                    Err(e) => Err(e),
                    Ok(n3) => {
                        if i < i2 < toks.len() {
                            let joined = if kind == TokenKind::Plus {
                                Expression::Add(Box::new(left), Box::new(right))
                            } else {
                                Expression::Subtract(Box::new(left), Box::new(right))
                            };
                            parse_sum_rest(toks, i2, depth, n3, joined)
                        } else {
                            Err(ExpressionError::UnexpectedEnd)
                        }
                    },
                },
            },
        }
    } else if kind == TokenKind::Plus || kind == TokenKind::Minus {
        Err(ExpressionError::UnexpectedEnd)
    } else {
        Ok((left, i, n))
    }
}

pub open spec fn parse_product(
    toks: Seq<Result<Token, ExpressionError>>,
    i: int,
    depth: int,
    n: int,
) -> ParseStep
    decreases toks.len() - i, 2int,
{
    if 0 <= i < toks.len() {
        match parse_unary(toks, i, depth, n) {
            Err(e) => Err(e),
            Ok((left, i2, n2)) => {
                if i < i2 < toks.len() {
                    parse_product_rest(toks, i2, depth, n2, left)
                } else {
                    Err(ExpressionError::UnexpectedEnd)
                }
            },
        }
    } else {
        Err(ExpressionError::UnexpectedEnd)
    }
}

pub open spec fn parse_product_rest(
    toks: Seq<Result<Token, ExpressionError>>,
    i: int,
    depth: int,
    n: int,
    left: Expression,
) -> ParseStep
    decreases toks.len() - i, 4int,
{
    let kind = tok_at(toks, i).kind;
    if 0 <= i && i + 1 < toks.len() && (kind == TokenKind::Star || kind == TokenKind::Slash) {
        match toks[i + 1] {
            Err(e) => Err(e),
            Ok(_) => match parse_unary(toks, i + 1, depth, n) {
                Err(e) => Err(e),
                Ok((right, i2, n2)) => match count_node(n2) {
                    Err(e) => Err(e),
                    Ok(n3) => {
                        if i < i2 < toks.len() {
                            let joined = if kind == TokenKind::Star {
                                Expression::Multiply(Box::new(left), Box::new(right))
                            } else {
                                Expression::Divide(Box::new(left), Box::new(right))
                            };
                            parse_product_rest(toks, i2, depth, n3, joined)
                        } else {
                            Err(ExpressionError::UnexpectedEnd)
                        }
                    },
                },
            },
        }
    } else if kind == TokenKind::Star || kind == TokenKind::Slash {
        Err(ExpressionError::UnexpectedEnd)
    } else {
        Ok((left, i, n))
    }
}

pub open spec fn parse_unary(
    toks: Seq<Result<Token, ExpressionError>>,
    i: int,
    depth: int,
    n: int,
) -> ParseStep
    decreases toks.len() - i, 1int,
{
    let kind = tok_at(toks, i).kind;
    if kind == TokenKind::Plus || kind == TokenKind::Minus {
        match advance(toks, i) {
            Err(e) => Err(e),
            Ok(i1) => {
                if i1 == i + 1 && i1 < toks.len() {
                    match parse_unary(toks, i1, depth + 1, n) {
                        Err(e) => Err(e),
                        Ok((value, i2, n2)) => {
                            if kind == TokenKind::Plus {
                                Ok((value, i2, n2))
                            } else {
                                match count_node(n2) {
                                    Err(e) => Err(e),
                                    Ok(n3) => Ok((Expression::Negate(Box::new(value)), i2, n3)),
                                }
                            }
                        },
                    }
                } else {
                    Err(ExpressionError::UnexpectedEnd)
                }
            },
        }
    } else {
        parse_primary(toks, i, depth, n)
    }
}

pub open spec fn parse_primary(
    toks: Seq<Result<Token, ExpressionError>>,
    i: int,
    depth: int,
    n: int,
) -> ParseStep
    decreases toks.len() - i, 0int,
{
    let t = tok_at(toks, i);
    if depth > MAX_EXPRESSION_DEPTH {
        Err(ExpressionError::NestingLimit { limit: MAX_EXPRESSION_DEPTH })
    } else if t.kind == TokenKind::Number || t.kind == TokenKind::Identifier {
        match advance(toks, i) {
            Err(e) => Err(e),
            Ok(i1) => match count_node(n) {
                Err(e) => Err(e),
                Ok(n1) => {
                    let leaf = if t.kind == TokenKind::Number {
                        Expression::Number { start: t.start, end: t.end }
                    } else {
                        Expression::Parameter { start: t.start, end: t.end }
                    };
                    Ok((leaf, i1, n1))
                },
            },
        }
    } else if t.kind == TokenKind::LeftParenthesis {
        match advance(toks, i) {
            Err(e) => Err(e),
            Ok(i1) => {
                if i1 == i + 1 && i1 < toks.len() {
                    match parse_sum(toks, i1, depth + 1, n) {
                        Err(e) => Err(e),
                        Ok((inner, i2, n2)) => {
                            let close = tok_at(toks, i2);
                            if close.kind == TokenKind::RightParenthesis {
                                match advance(toks, i2) {
                                    Err(e) => Err(e),
                                    Ok(i3) => Ok((inner, i3, n2)),
                                }
                            } else if close.kind == TokenKind::End {
                                Err(ExpressionError::UnexpectedEnd)
                            } else {
                                Err(ExpressionError::UnexpectedToken { position: close.start })
                            }
                        },
                    }
                } else {
                    Err(ExpressionError::UnexpectedEnd)
                }
            },
        }
    } else if t.kind == TokenKind::End {
        Err(ExpressionError::UnexpectedEnd)
    } else {
        Err(ExpressionError::UnexpectedToken { position: t.start })
    }
}

/// The whole-input parse: a sum followed by the end of input.
pub open spec fn parse_tokens(toks: Seq<Result<Token, ExpressionError>>) -> Result<
    Expression,
    ExpressionError,
> {
    if toks.len() == 0 {
        Err(ExpressionError::UnexpectedEnd)
    } else {
        match toks[0] {
            Err(e) => Err(e),
            Ok(_) => match parse_sum(toks, 0, 0, 0) {
                Err(e) => Err(e),
                Ok((expression, i, _)) => {
                    let t = tok_at(toks, i);
                    if t.kind == TokenKind::End {
                        Ok(expression)
                    } else {
                        Err(ExpressionError::UnexpectedToken { position: t.start })
                    }
                },
            },
        }
    }
}

/// The parse of an expression source given as bytes.
pub open spec fn parse_source(b: Seq<u8>) -> Result<Expression, ExpressionError> {
    parse_tokens(lex_from(b, 0))
}

/// Every span in the tree lies inside a source of `len` bytes.
pub open spec fn spans_in_bounds(e: Expression, len: int) -> bool
    decreases e,
{
    match e {
        Expression::Number { start, end } => start <= end <= len,
        Expression::Parameter { start, end } => start <= end <= len,
        Expression::Negate(v) => spans_in_bounds(*v, len),
        Expression::Add(l, r) => spans_in_bounds(*l, len) && spans_in_bounds(*r, len),
        Expression::Subtract(l, r) => spans_in_bounds(*l, len) && spans_in_bounds(*r, len),
        Expression::Multiply(l, r) => spans_in_bounds(*l, len) && spans_in_bounds(*r, len),
        Expression::Divide(l, r) => spans_in_bounds(*l, len) && spans_in_bounds(*r, len),
    }
}

/// What each parsing function promises besides agreeing with its specification.
pub open spec fn step_ok(r: Result<(Expression, usize, usize), ExpressionError>, i: int, len: int, blen: int) -> bool {
    r matches Ok((e, i2, n2)) ==> {
        &&& i < i2 < len
        &&& n2 <= MAX_EXPRESSION_NODES
        &&& spans_in_bounds(e, blen)
    }
}

fn advance_exec(toks: &Vec<Result<Token, ExpressionError>>, i: usize) -> (r: Result<usize, ExpressionError>)
    requires
        errors_lexical(toks@),
    ensures
        r matches Ok(i1) ==> advance(toks@, i as int) == Ok::<int, ExpressionError>(i1 as int),
        r matches Err(e) ==> advance(toks@, i as int) == Err::<int, ExpressionError>(e),
{
    if i < toks.len() && i + 1 < toks.len() {
        match &toks[i + 1] {
            Ok(_) => Ok(i + 1),
            Err(e) => Err(copy_lexical(e)),
        }
    } else {
        Err(ExpressionError::UnexpectedEnd)
    }
}

fn current(toks: &Vec<Result<Token, ExpressionError>>, i: usize) -> (t: Token)
    ensures
        t == tok_at(toks@, i as int),
{
    if i < toks.len() {
        match &toks[i] {
            Ok(t) => *t,
            Err(_) => Token { kind: TokenKind::End, start: 0, end: 0 },
        }
    } else {
        Token { kind: TokenKind::End, start: 0, end: 0 }
    }
}

fn count_node_exec(n: usize) -> (r: Result<usize, ExpressionError>)
    requires
        n <= MAX_EXPRESSION_NODES,
    ensures
        r matches Ok(n1) ==> count_node(n as int) == Ok::<int, ExpressionError>(n1 as int),
        r matches Ok(n1) ==> n1 <= MAX_EXPRESSION_NODES,
        r matches Err(e) ==> count_node(n as int) == Err::<int, ExpressionError>(e),
{
    if n + 1 > MAX_EXPRESSION_NODES {
        Err(ExpressionError::NodeLimit { limit: MAX_EXPRESSION_NODES })
    } else {
        Ok(n + 1)
    }
}

/// Preconditions shared by the parsing functions.
pub open spec fn parser_state(toks: Seq<Result<Token, ExpressionError>>, i: int, depth: int, n: int, blen: int) -> bool {
    &&& 0 <= i < toks.len()
    &&& depth <= i
    &&& n <= MAX_EXPRESSION_NODES
    &&& tokens_in_bounds(toks, blen)
    &&& errors_lexical(toks)
}

fn exec_sum(
    toks: &Vec<Result<Token, ExpressionError>>,
    i: usize,
    depth: usize,
    n: usize,
    Ghost(blen): Ghost<int>,
) -> (r: Result<(Expression, usize, usize), ExpressionError>)
    requires
        parser_state(toks@, i as int, depth as int, n as int, blen),
    ensures
        lift(r) == parse_sum(toks@, i as int, depth as int, n as int),
        step_ok(r, i as int, toks@.len() as int, blen),
    decreases toks@.len() - i, 3int,
{
    let (mut expression, mut at, mut nodes) = match exec_product(toks, i, depth, n, Ghost(blen)) {
        Ok(v) => v,
        Err(e) => return Err(e),
    };
    loop
        invariant
            parser_state(toks@, i as int, depth as int, n as int, blen),
            i < at < toks@.len(),
            nodes <= MAX_EXPRESSION_NODES,
            spans_in_bounds(expression, blen),
            parse_sum(toks@, i as int, depth as int, n as int) == parse_sum_rest(
                toks@,
                at as int,
                depth as int,
                nodes as int,
                expression,
            ),
        decreases toks@.len() - at,
    {
        let kind = current(toks, at).kind;
        if kind != TokenKind::Plus && kind != TokenKind::Minus {
            return Ok((expression, at, nodes));
        }
        if at >= toks.len() - 1 {
            return Err(ExpressionError::UnexpectedEnd);
        }
        if let Err(e) = &toks[at + 1] {
            return Err(copy_lexical(e));
        }
        let (right, at2, n2) = match exec_product(toks, at + 1, depth, nodes, Ghost(blen)) {
            Ok(v) => v,
            Err(e) => return Err(e),
        };
        let n3 = match count_node_exec(n2) {
            Ok(v) => v,
            Err(e) => return Err(e),
        };
        expression = if kind == TokenKind::Plus {
            Expression::Add(Box::new(expression), Box::new(right))
        } else {
            Expression::Subtract(Box::new(expression), Box::new(right))
        };
        at = at2;
        nodes = n3;
    }
}

fn exec_product(
    toks: &Vec<Result<Token, ExpressionError>>,
    i: usize,
    depth: usize,
    n: usize,
    Ghost(blen): Ghost<int>,
) -> (r: Result<(Expression, usize, usize), ExpressionError>)
    requires
        parser_state(toks@, i as int, depth as int, n as int, blen),
    ensures
        lift(r) == parse_product(toks@, i as int, depth as int, n as int),
        step_ok(r, i as int, toks@.len() as int, blen),
    decreases toks@.len() - i, 2int,
{
    let (mut expression, mut at, mut nodes) = match exec_unary(toks, i, depth, n, Ghost(blen)) {
        Ok(v) => v,
        Err(e) => return Err(e),
    };
    loop
        invariant
            parser_state(toks@, i as int, depth as int, n as int, blen),
            i < at < toks@.len(),
            nodes <= MAX_EXPRESSION_NODES,
            spans_in_bounds(expression, blen),
            parse_product(toks@, i as int, depth as int, n as int) == parse_product_rest(
                toks@,
                at as int,
                depth as int,
                nodes as int,
                expression,
            ),
        decreases toks@.len() - at,
    {
        let kind = current(toks, at).kind;
        if kind != TokenKind::Star && kind != TokenKind::Slash {
            return Ok((expression, at, nodes));
        }
        if at >= toks.len() - 1 {
            return Err(ExpressionError::UnexpectedEnd);
        }
        if let Err(e) = &toks[at + 1] {
            return Err(copy_lexical(e));
        }
        let (right, at2, n2) = match exec_unary(toks, at + 1, depth, nodes, Ghost(blen)) {
            Ok(v) => v,
            Err(e) => return Err(e),
        };
        let n3 = match count_node_exec(n2) {
            Ok(v) => v,
            Err(e) => return Err(e),
        };
        expression = if kind == TokenKind::Star {
            Expression::Multiply(Box::new(expression), Box::new(right))
        } else {
            Expression::Divide(Box::new(expression), Box::new(right))
        };
        at = at2;
        nodes = n3;
    }
}

fn exec_unary(
    toks: &Vec<Result<Token, ExpressionError>>,
    i: usize,
    depth: usize,
    n: usize,
    Ghost(blen): Ghost<int>,
) -> (r: Result<(Expression, usize, usize), ExpressionError>)
    requires
        parser_state(toks@, i as int, depth as int, n as int, blen),
    ensures
        lift(r) == parse_unary(toks@, i as int, depth as int, n as int),
        step_ok(r, i as int, toks@.len() as int, blen),
    decreases toks@.len() - i, 1int,
{
    let kind = current(toks, i).kind;
    if kind == TokenKind::Plus || kind == TokenKind::Minus {
        let i1 = match advance_exec(toks, i) {
            Ok(v) => v,
            Err(e) => return Err(e),
        };
        let (value, i2, n2) = match exec_unary(toks, i1, depth + 1, n, Ghost(blen)) {
            Ok(v) => v,
            Err(e) => return Err(e),
        };
        if kind == TokenKind::Plus {
            Ok((value, i2, n2))
        } else {
            let n3 = match count_node_exec(n2) {
                Ok(v) => v,
                Err(e) => return Err(e),
            };
            Ok((Expression::Negate(Box::new(value)), i2, n3))
        }
    } else {
        exec_primary(toks, i, depth, n, Ghost(blen))
    }
}

fn exec_primary(
    toks: &Vec<Result<Token, ExpressionError>>,
    i: usize,
    depth: usize,
    n: usize,
    Ghost(blen): Ghost<int>,
) -> (r: Result<(Expression, usize, usize), ExpressionError>)
    requires
        parser_state(toks@, i as int, depth as int, n as int, blen),
    ensures
        lift(r) == parse_primary(toks@, i as int, depth as int, n as int),
        step_ok(r, i as int, toks@.len() as int, blen),
    decreases toks@.len() - i, 0int,
{
    let t = current(toks, i);
    if depth > MAX_EXPRESSION_DEPTH {
        return Err(ExpressionError::NestingLimit { limit: MAX_EXPRESSION_DEPTH });
    }
    if t.kind == TokenKind::Number || t.kind == TokenKind::Identifier {
        proof {
            assert(toks@[i as int] matches Ok(x) ==> x.start <= x.end <= blen);
        }
        let i1 = match advance_exec(toks, i) {
            Ok(v) => v,
            Err(e) => return Err(e),
        };
        let n1 = match count_node_exec(n) {
            Ok(v) => v,
            Err(e) => return Err(e),
        };
        let leaf = if t.kind == TokenKind::Number {
            Expression::Number { start: t.start, end: t.end }
        } else {
            Expression::Parameter { start: t.start, end: t.end }
        };
        Ok((leaf, i1, n1))
    } else if t.kind == TokenKind::LeftParenthesis {
        let i1 = match advance_exec(toks, i) {
            Ok(v) => v,
            Err(e) => return Err(e),
        };
        let (inner, i2, n2) = match exec_sum(toks, i1, depth + 1, n, Ghost(blen)) {
            Ok(v) => v,
            Err(e) => return Err(e),
        };
        let close = current(toks, i2);
        if close.kind == TokenKind::RightParenthesis {
            let i3 = match advance_exec(toks, i2) {
                Ok(v) => v,
                Err(e) => return Err(e),
            };
            Ok((inner, i3, n2))
        } else if close.kind == TokenKind::End {
            Err(ExpressionError::UnexpectedEnd)
        } else {
            Err(ExpressionError::UnexpectedToken { position: close.start })
        }
    } else if t.kind == TokenKind::End {
        Err(ExpressionError::UnexpectedEnd)
    } else {
        Err(ExpressionError::UnexpectedToken { position: t.start })
    }
}

/// The errors a lexer can report: they carry only a byte position.
pub open spec fn is_lexical(e: ExpressionError) -> bool {
    e is InvalidCharacter || e is InvalidNumber
}

fn copy_lexical(e: &ExpressionError) -> (c: ExpressionError)
    requires
        is_lexical(*e),
    ensures
        c == *e,
{
    match e {
        ExpressionError::InvalidCharacter { position } => ExpressionError::InvalidCharacter {
            position: *position,
        },
        _ => match e {
            ExpressionError::InvalidNumber { position } => ExpressionError::InvalidNumber {
                position: *position,
            },
            _ => ExpressionError::UnexpectedEnd,
        },
    }
}


// ---------------------------------------------------------------------------
// Parameter names and expressions
// ---------------------------------------------------------------------------

/// Returns whether a string can be used as a stable parameter symbol.
pub fn is_valid_parameter_name(name: &str) -> (valid: bool)
    ensures
        valid == valid_parameter_name(utf8(name@)),
{
    let b = name.as_bytes();
    proof {
        assert(b@ == utf8(name@));
    }
    if b.len() == 0 {
        return false;
    }
    let first = b[0];
    if !((65 <= first && first <= 90) || (97 <= first && first <= 122) || first == 95) {
        return false;
    }
    let mut i: usize = 1;
    while i < b.len()
        invariant
            1 <= i <= b@.len(),
            b@ == utf8(name@),
            forall|j: int| 1 <= j < i ==> is_name_continue(#[trigger] b@[j]),
        decreases b@.len() - i,
    {
        if !byte_in_class(1, b[i]) {
            proof {
                assert(!is_name_continue(b@[i as int]));
            }
            return false;
        }
        i += 1;
    }
    true
}


/// The bytes of a character sequence (its UTF-8 encoding).
pub open spec fn utf8(t: Seq<char>) -> Seq<u8> {
    vstd::utf8::encode_utf8(t)
}

/// What parsing the stored source `t` gives: it must be non-empty, at most
/// `MAX_EXPRESSION_BYTES` long, and follow the grammar.
pub open spec fn check_source(t: Seq<char>) -> Result<Expression, ExpressionError> {
    if t.len() == 0 {
        Err(ExpressionError::Empty)
    } else if utf8(t).len() > MAX_EXPRESSION_BYTES {
        Err(ExpressionError::TooLong { limit: MAX_EXPRESSION_BYTES })
    } else {
        parse_source(utf8(t))
    }
}

/// Every parameter name that occurs in the tree.
pub open spec fn expression_names(e: Expression, b: Seq<u8>) -> Set<Seq<char>>
    decreases e,
{
    match e {
        Expression::Number { .. } => Set::empty(),
        Expression::Parameter { start, end } => set![
            ascii_text(b.subrange(start as int, end as int)),
        ],
        Expression::Negate(v) => expression_names(*v, b),
        Expression::Add(l, r) => expression_names(*l, b).union(expression_names(*r, b)),
        Expression::Subtract(l, r) => expression_names(*l, b).union(expression_names(*r, b)),
        Expression::Multiply(l, r) => expression_names(*l, b).union(expression_names(*r, b)),
        Expression::Divide(l, r) => expression_names(*l, b).union(expression_names(*r, b)),
    }
}

/// The characters of each string.
pub open spec fn string_views(v: Seq<String>) -> Seq<Seq<char>> {
    v.map_values(|s: String| s@)
}

/// Strictly increasing in string order (so also free of duplicates).
pub open spec fn strictly_increasing(v: Seq<Seq<char>>) -> bool {
    forall|i: int, j: int| 0 <= i < j < v.len() ==> chars_lt(#[trigger] v[i], #[trigger] v[j])
}

/// Editable source for a scalar parameter formula.
///
/// Formula values are measured in the owning document's units. Parameter
/// names resolve case-sensitively and follow [`is_valid_parameter_name`].
pub struct ParameterExpression(String);

impl View for ParameterExpression {
    type V = Seq<char>;

    closed spec fn view(&self) -> Seq<char> {
        self.0@
    }
}

impl ParameterExpression {
    /// Trims `source` and admits it when it parses.
    pub fn new(source: &str) -> (r: Result<Self, ExpressionError>)
        ensures
            match r {
                Ok(e) => e@ == trimmed(source@) && check_source(trimmed(source@)) is Ok,
                Err(err) => check_source(trimmed(source@)) == Err::<Expression, ExpressionError>(err),
            },
    {
        let expression = ParameterExpression(trim_to_string(source));
        match expression.parse() {
            Ok(_) => Ok(expression),
            Err(e) => Err(e),
        }
    }

    /// A copy of the expression.
    pub fn copy(&self) -> (c: Self)
        ensures
            c == *self,
    {
        ParameterExpression(self.0.clone())
    }

    /// The stored, trimmed source text.
    pub fn source(&self) -> (s: &str)
        ensures
            s@ == self@,
    {
        self.0.as_str()
    }

    /// Parses the stored source.
    pub fn parse(&self) -> (r: Result<Expression, ExpressionError>)
        ensures
            r == check_source(self@),
            r matches Ok(e) ==> spans_in_bounds(e, utf8(self@).len() as int),
    {
        let text = self.0.as_str();
        if text.is_empty() {
            return Err(ExpressionError::Empty);
        }
        let bytes = text.as_bytes();
        if bytes.len() > MAX_EXPRESSION_BYTES {
            return Err(ExpressionError::TooLong { limit: MAX_EXPRESSION_BYTES });
        }
        parse_bytes(bytes)
    }

    /// Every referenced parameter name, each once, in increasing order.
    pub fn dependencies(&self) -> (r: Result<Vec<String>, ExpressionError>)
        ensures
            match r {
                Ok(names) => check_source(self@) matches Ok(e) && string_views(names@).to_set()
                    == expression_names(e, utf8(self@)) && strictly_increasing(
                    string_views(names@),
                ),
                Err(err) => check_source(self@) == Err::<Expression, ExpressionError>(err),
            },
    {
        let expression = match self.parse() {
            Ok(e) => e,
            Err(e) => return Err(e),
        };
        let bytes = self.0.as_str().as_bytes();
        let mut names: Vec<String> = Vec::new();
        proof {
            assert(string_views(names@).to_set() =~= Set::<Seq<char>>::empty());
        }
        collect_names(&expression, bytes, &mut names);
        proof {
            assert(string_views(names@).to_set() =~= Set::<Seq<char>>::empty().union(
                expression_names(expression, bytes@),
            ));
        }
        Ok(names)
    }
}

/// Parses expression bytes.
pub fn parse_bytes(bytes: &[u8]) -> (r: Result<Expression, ExpressionError>)
    requires
        bytes@.len() <= MAX_EXPRESSION_BYTES,
    ensures
        r == parse_source(bytes@),
        r matches Ok(e) ==> spans_in_bounds(e, bytes@.len() as int),
{
    let toks = tokenize(bytes);
    match &toks[0] {
        Err(e) => return Err(copy_lexical(e)),
        Ok(_) => {},
    }
    let (expression, at, _nodes) = match exec_sum(&toks, 0, 0, 0, Ghost(bytes@.len() as int)) {
        Ok(v) => v,
        Err(e) => return Err(e),
    };
    let t = current(&toks, at);
    if t.kind == TokenKind::End {
        Ok(expression)
    } else {
        Err(ExpressionError::UnexpectedToken { position: t.start })
    }
}

/// The ASCII characters of `b[start..end]` as a string.
fn ascii_string(b: &[u8], start: usize, end: usize) -> (s: String)
    requires
        start <= end <= b@.len(),
    ensures
        s@ == ascii_text(b@.subrange(start as int, end as int)),
{
    let mut s = String::new();
    let mut i = start;
    while i < end
        invariant
            start <= i <= end <= b@.len(),
            s@ == ascii_text(b@.subrange(start as int, i as int)),
        decreases end - i,
    {
        string_push(&mut s, b[i] as char);
        proof {
            assert(ascii_text(b@.subrange(start as int, i + 1)) =~= ascii_text(
                b@.subrange(start as int, i as int),
            ).push(b@[i as int] as char));
        }
        i += 1;
    }
    s
}

/// Inserts `name` into a strictly increasing list unless it is already there.
fn insert_sorted(names: &mut Vec<String>, name: String)
    requires
        strictly_increasing(string_views(old(names)@)),
    ensures
        strictly_increasing(string_views(final(names)@)),
        string_views(final(names)@).to_set() == string_views(old(names)@).to_set().insert(name@),
{
    let ghost old_views = string_views(names@);
    let mut k: usize = 0;
    while k < names.len() && str_less(names[k].as_str(), name.as_str())
        invariant
            k <= names@.len(),
            names@ == old(names)@,
            old_views == string_views(names@),
            strictly_increasing(old_views),
            forall|j: int| 0 <= j < k ==> chars_lt(#[trigger] old_views[j], name@),
        decreases names@.len() - k,
    {
        k += 1;
    }
    if k < names.len() {
        if !str_less(name.as_str(), names[k].as_str()) {
            proof {
                lemma_chars_lt_total(old_views[k as int], name@);
                assert(old_views[k as int] == name@);
                assert(old_views.to_set().insert(name@) =~= old_views.to_set()) by {
                    assert(old_views.contains(name@));
                }
            }
            return;
        }
    }
    proof {
        if k < names@.len() {
            assert(chars_lt(name@, old_views[k as int]));
        }
    }
    names.insert(k, name);
    proof {
        let views = string_views(names@);
        assert(views =~= old_views.insert(k as int, name@));
        assert forall|i: int, j: int| 0 <= i < j < views.len() implies chars_lt(
            #[trigger] views[i],
            #[trigger] views[j],
        ) by {
            if j == k {
            } else if i == k {
                assert(views[j] == old_views[j - 1]);
                if j - 1 > k {
                    lemma_chars_lt_transitive(name@, old_views[k as int], old_views[j - 1]);
                }
            } else if i < k && j > k {
                assert(views[j] == old_views[j - 1]);
                if j - 1 >= k as int {
                    if j - 1 == k {
                        lemma_chars_lt_transitive(old_views[i], name@, old_views[k as int]);
                    } else {
                        lemma_chars_lt_transitive(old_views[i], name@, old_views[k as int]);
                        lemma_chars_lt_transitive(old_views[i], old_views[k as int], old_views[j - 1]);
                    }
                }
            } else if i > k {
                assert(views[i] == old_views[i - 1]);
                assert(views[j] == old_views[j - 1]);
            }
        }
        assert(views.to_set() =~= old_views.to_set().insert(name@)) by {
            assert forall|x: Seq<char>| views.to_set().contains(x) <==> old_views.to_set().insert(name@).contains(x) by {
                if views.contains(x) {
                    let i = choose|i: int| 0 <= i < views.len() && views[i] == x;
                    if i < k {
                        assert(old_views[i] == x);
                    } else if i > k {
                        assert(old_views[i - 1] == x);
                    }
                }
                if old_views.contains(x) {
                    let i = choose|i: int| 0 <= i < old_views.len() && old_views[i] == x;
                    if i < k {
                        assert(views[i] == x);
                    } else {
                        assert(views[i + 1] == x);
                    }
                }
                if x == name@ {
                    assert(views[k as int] == x);
                }
            }
        }
    }
}

/// Adds every parameter name of `e` to a strictly increasing name list.
fn collect_names(e: &Expression, b: &[u8], names: &mut Vec<String>)
    requires
        spans_in_bounds(*e, b@.len() as int),
        strictly_increasing(string_views(old(names)@)),
    ensures
        strictly_increasing(string_views(final(names)@)),
        string_views(final(names)@).to_set() == string_views(old(names)@).to_set().union(
            expression_names(*e, b@),
        ),
    decreases e,
{
    match e {
        Expression::Number { .. } => {
            proof {
                assert(string_views(names@).to_set().union(expression_names(*e, b@))
                    =~= string_views(names@).to_set());
            }
        },
        Expression::Parameter { start, end } => {
            let name = ascii_string(b, *start, *end);
            insert_sorted(names, name);
            proof {
                assert(string_views(old(names)@).to_set().union(expression_names(*e, b@))
                    =~= string_views(old(names)@).to_set().insert(
                    ascii_text(b@.subrange(*start as int, *end as int)),
                ));
            }
        },
        Expression::Negate(v) => {
            collect_names(v, b, names);
        },
        Expression::Add(l, r) | Expression::Subtract(l, r) | Expression::Multiply(l, r)
        | Expression::Divide(l, r) => {
            collect_names(l, b, names);
            collect_names(r, b, names);
            proof {
                assert(string_views(final(names)@).to_set() =~= string_views(old(names)@).to_set().union(
                    expression_names(*e, b@),
                ));
            }
        },
    }
}

// ---------------------------------------------------------------------------
// Source order of a parse
// ---------------------------------------------------------------------------

/// Where the leftmost leaf of `e` starts in the source.
pub open spec fn first_start(e: Expression) -> int
    decreases e,
{
    match e {
        Expression::Number { start, end } => start as int,
        Expression::Parameter { start, end } => start as int,
        Expression::Negate(v) => first_start(*v),
        Expression::Add(l, r) => first_start(*l),
        Expression::Subtract(l, r) => first_start(*l),
        Expression::Multiply(l, r) => first_start(*l),
        Expression::Divide(l, r) => first_start(*l),
    }
}

/// Where the rightmost leaf of `e` ends in the source.
pub open spec fn last_end(e: Expression) -> int
    decreases e,
{
    match e {
        Expression::Number { start, end } => end as int,
        Expression::Parameter { start, end } => end as int,
        Expression::Negate(v) => last_end(*v),
        Expression::Add(l, r) => last_end(*r),
        Expression::Subtract(l, r) => last_end(*r),
        Expression::Multiply(l, r) => last_end(*r),
        Expression::Divide(l, r) => last_end(*r),
    }
}

/// The tree keeps the order of the source: every leaf span runs forward, and
/// the left operand of each binary node lies wholly before its right operand.
pub open spec fn source_ordered(e: Expression) -> bool
    decreases e,
{
    match e {
        Expression::Number { start, end } => start <= end,
        Expression::Parameter { start, end } => start <= end,
        Expression::Negate(v) => source_ordered(*v),
        Expression::Add(l, r) => source_ordered(*l) && source_ordered(*r) && last_end(*l) <= first_start(*r),
        Expression::Subtract(l, r) => source_ordered(*l) && source_ordered(*r) && last_end(*l) <= first_start(*r),
        Expression::Multiply(l, r) => source_ordered(*l) && source_ordered(*r) && last_end(*l) <= first_start(*r),
        Expression::Divide(l, r) => source_ordered(*l) && source_ordered(*r) && last_end(*l) <= first_start(*r),
    }
}

/// Tokens run forward and each ends before the next begins.
pub open spec fn tokens_ordered(toks: Seq<Result<Token, ExpressionError>>) -> bool {
    &&& forall|j: int| 0 <= j < toks.len() && toks[j] is Ok ==> #[trigger] tok_at(toks, j).start <= tok_at(toks, j).end
    &&& forall|j: int, k: int|
        0 <= j < k < toks.len() && toks[j] is Ok && toks[k] is Ok ==> #[trigger] tok_at(toks, j).end
            <= #[trigger] tok_at(toks, k).start
}

proof fn lemma_scan_bounds(b: Seq<u8>, p: int, class: int)
    requires
        0 <= p <= b.len(),
    ensures
        p <= scan(b, p, class) <= b.len(),
    decreases b.len() - p,
{
    if 0 <= p < b.len() && in_class(class, b[p]) {
        lemma_scan_bounds(b, p + 1, class);
    }
}

proof fn lemma_lex_at_bounds(b: Seq<u8>, p: int)
    requires
        0 <= p <= b.len() <= MAX_EXPRESSION_BYTES,
    ensures
        lex_at(b, p) matches Ok(t) ==> p <= t.start <= t.end <= b.len(),
{
    let s = scan(b, p, 0);
    lemma_scan_bounds(b, p, 0);
    if s < b.len() {
        lemma_scan_bounds(b, s + 1, 1);
        lemma_scan_bounds(b, s, 2);
        let a = scan(b, s, 2);
        if a < b.len() {
            lemma_scan_bounds(b, a + 1, 2);
        }
        let has_dot = 0 <= a < b.len() && b[a] == 46;
        let c = if has_dot {
            scan(b, a + 1, 2)
        } else {
            a
        };
        if 0 <= c < b.len() {
            let signed = c + 1 < b.len() && (b[c + 1] == 43 || b[c + 1] == 45);
            let d = if signed {
                c + 2
            } else {
                c + 1
            };
            lemma_scan_bounds(b, d, 2);
        }
    }
}

proof fn lemma_lex_from_ordered(b: Seq<u8>, p: int)
    requires
        0 <= p <= b.len() <= MAX_EXPRESSION_BYTES,
    ensures
        forall|j: int|
            0 <= j < lex_from(b, p).len() && lex_from(b, p)[j] is Ok ==> p <= #[trigger] tok_at(
                lex_from(b, p),
                j,
            ).start,
        tokens_ordered(lex_from(b, p)),
    decreases b.len() - p,
{
    lemma_lex_at_bounds(b, p);
    let all = lex_from(b, p);
    match lex_at(b, p) {
        Err(e) => {},
        Ok(t) => {
            if t.kind != TokenKind::End && p < t.end && t.end <= b.len() {
                let rest = lex_from(b, t.end as int);
                lemma_lex_from_ordered(b, t.end as int);
                assert(all == seq![Ok::<Token, ExpressionError>(t)] + rest);
                assert forall|j: int| 1 <= j < all.len() implies #[trigger] tok_at(all, j) == tok_at(rest, j - 1)
                    && all[j] == rest[j - 1] by {}
                assert(tok_at(all, 0) == t);
                assert forall|j: int| 0 <= j < all.len() && all[j] is Ok implies p <= #[trigger] tok_at(
                    all,
                    j,
                ).start && tok_at(all, j).start <= tok_at(all, j).end by {
                    if j > 0 {
                        assert(tok_at(all, j) == tok_at(rest, j - 1));
                    }
                }
                assert forall|j: int, k: int|
                    0 <= j < k < all.len() && all[j] is Ok && all[k] is Ok implies #[trigger] tok_at(all, j).end
                        <= #[trigger] tok_at(all, k).start by {
                    assert(tok_at(all, k) == tok_at(rest, k - 1));
                    if j > 0 {
                        assert(tok_at(all, j) == tok_at(rest, j - 1));
                    }
                }
            } else {
                assert(all == seq![Ok::<Token, ExpressionError>(t)]);
                assert(tok_at(all, 0) == t);
            }
        },
    }
}

/// A parse step from token `i` to token `i2` built `e` in source order out of
/// the tokens it consumed.
pub open spec fn step_ordered(toks: Seq<Result<Token, ExpressionError>>, i: int, e: Expression, i2: int) -> bool {
    &&& i < i2 < toks.len()
    &&& toks[i2] is Ok
    &&& source_ordered(e)
    &&& tok_at(toks, i).start <= first_start(e)
    &&& last_end(e) <= tok_at(toks, i2).start
}

/// A continuation from token `i` to token `i2` that extended `left` into `e`
/// in source order.
pub open spec fn rest_ordered(
    toks: Seq<Result<Token, ExpressionError>>,
    i: int,
    left: Expression,
    e: Expression,
    i2: int,
) -> bool {
    &&& i <= i2 < toks.len()
    &&& toks[i2] is Ok
    &&& source_ordered(e)
    &&& first_start(e) == first_start(left)
    &&& last_end(e) <= tok_at(toks, i2).start
}

proof fn lemma_sum_ordered(toks: Seq<Result<Token, ExpressionError>>, i: int, depth: int, n: int)
    requires
        tokens_ordered(toks),
        0 <= i < toks.len(),
        toks[i] is Ok,
    ensures
        parse_sum(toks, i, depth, n) matches Ok((e, i2, _)) ==> step_ordered(toks, i, e, i2),
    decreases toks.len() - i, 3int,
{
    lemma_product_ordered(toks, i, depth, n);
    if let Ok((left, i2, n2)) = parse_product(toks, i, depth, n) {
        if i < i2 < toks.len() {
            lemma_sum_rest_ordered(toks, i2, depth, n2, left);
        }
    }
}

proof fn lemma_sum_rest_ordered(
    toks: Seq<Result<Token, ExpressionError>>,
    i: int,
    depth: int,
    n: int,
    left: Expression,
)
    requires
        tokens_ordered(toks),
        0 <= i < toks.len(),
        toks[i] is Ok,
        source_ordered(left),
        last_end(left) <= tok_at(toks, i).start,
    ensures
        parse_sum_rest(toks, i, depth, n, left) matches Ok((e, i2, _)) ==> rest_ordered(toks, i, left, e, i2),
    decreases toks.len() - i, 4int,
{
    let kind = tok_at(toks, i).kind;
    if 0 <= i && i + 1 < toks.len() && (kind == TokenKind::Plus || kind == TokenKind::Minus) {
        if toks[i + 1] is Ok {
            lemma_product_ordered(toks, i + 1, depth, n);
            if let Ok((right, i2, n2)) = parse_product(toks, i + 1, depth, n) {
                if let Ok(n3) = count_node(n2) {
                    if i < i2 < toks.len() {
                        assert(tok_at(toks, i).end <= tok_at(toks, i + 1).start);
                        let joined = if kind == TokenKind::Plus {
                            Expression::Add(Box::new(left), Box::new(right))
                        } else {
                            Expression::Subtract(Box::new(left), Box::new(right))
                        };
                        lemma_sum_rest_ordered(toks, i2, depth, n3, joined);
                    }
                }
            }
        }
    }
}

proof fn lemma_product_ordered(toks: Seq<Result<Token, ExpressionError>>, i: int, depth: int, n: int)
    requires
        tokens_ordered(toks),
        0 <= i < toks.len(),
        toks[i] is Ok,
    ensures
        parse_product(toks, i, depth, n) matches Ok((e, i2, _)) ==> step_ordered(toks, i, e, i2),
    decreases toks.len() - i, 2int,
{
    lemma_unary_ordered(toks, i, depth, n);
    if let Ok((left, i2, n2)) = parse_unary(toks, i, depth, n) {
        if i < i2 < toks.len() {
            lemma_product_rest_ordered(toks, i2, depth, n2, left);
        }
    }
}

proof fn lemma_product_rest_ordered(
    toks: Seq<Result<Token, ExpressionError>>,
    i: int,
    depth: int,
    n: int,
    left: Expression,
)
    requires
        tokens_ordered(toks),
        0 <= i < toks.len(),
        toks[i] is Ok,
        source_ordered(left),
        last_end(left) <= tok_at(toks, i).start,
    ensures
        parse_product_rest(toks, i, depth, n, left) matches Ok((e, i2, _)) ==> rest_ordered(toks, i, left, e, i2),
    decreases toks.len() - i, 4int,
{
    let kind = tok_at(toks, i).kind;
    if 0 <= i && i + 1 < toks.len() && (kind == TokenKind::Star || kind == TokenKind::Slash) {
        if toks[i + 1] is Ok {
            lemma_unary_ordered(toks, i + 1, depth, n);
            if let Ok((right, i2, n2)) = parse_unary(toks, i + 1, depth, n) {
                if let Ok(n3) = count_node(n2) {
                    if i < i2 < toks.len() {
                        assert(tok_at(toks, i).end <= tok_at(toks, i + 1).start);
                        let joined = if kind == TokenKind::Star {
                            Expression::Multiply(Box::new(left), Box::new(right))
                        } else {
                            Expression::Divide(Box::new(left), Box::new(right))
                        };
                        lemma_product_rest_ordered(toks, i2, depth, n3, joined);
                    }
                }
            }
        }
    }
}

proof fn lemma_unary_ordered(toks: Seq<Result<Token, ExpressionError>>, i: int, depth: int, n: int)
    requires
        tokens_ordered(toks),
        0 <= i < toks.len(),
        toks[i] is Ok,
    ensures
        parse_unary(toks, i, depth, n) matches Ok((e, i2, _)) ==> step_ordered(toks, i, e, i2),
    decreases toks.len() - i, 1int,
{
    let kind = tok_at(toks, i).kind;
    if kind == TokenKind::Plus || kind == TokenKind::Minus {
        if let Ok(i1) = advance(toks, i) {
            if i1 == i + 1 && i1 < toks.len() {
                assert(tok_at(toks, i).end <= tok_at(toks, i1).start);
                lemma_unary_ordered(toks, i1, depth + 1, n);
            }
        }
    } else {
        lemma_primary_ordered(toks, i, depth, n);
    }
}

proof fn lemma_primary_ordered(toks: Seq<Result<Token, ExpressionError>>, i: int, depth: int, n: int)
    requires
        tokens_ordered(toks),
        0 <= i < toks.len(),
        toks[i] is Ok,
    ensures
        parse_primary(toks, i, depth, n) matches Ok((e, i2, _)) ==> step_ordered(toks, i, e, i2),
    decreases toks.len() - i, 0int,
{
    let t = tok_at(toks, i);
    if depth > MAX_EXPRESSION_DEPTH {
    } else if t.kind == TokenKind::Number || t.kind == TokenKind::Identifier {
        if let Ok(i1) = advance(toks, i) {
            assert(tok_at(toks, i).start <= tok_at(toks, i).end);
            assert(tok_at(toks, i).end <= tok_at(toks, i1).start);
        }
    } else if t.kind == TokenKind::LeftParenthesis {
        if let Ok(i1) = advance(toks, i) {
            if i1 == i + 1 && i1 < toks.len() {
                assert(tok_at(toks, i).start <= tok_at(toks, i).end);
                assert(tok_at(toks, i).end <= tok_at(toks, i1).start);
                lemma_sum_ordered(toks, i1, depth + 1, n);
                if let Ok((inner, i2, n2)) = parse_sum(toks, i1, depth + 1, n) {
                    if let Ok(i3) = advance(toks, i2) {
                        assert(tok_at(toks, i2).start <= tok_at(toks, i2).end);
                        assert(tok_at(toks, i2).end <= tok_at(toks, i3).start);
                    }
                }
            }
        }
    }
}

/// A parse keeps the order of its source: each leaf's span runs forward, and
/// the left operand of every sum, difference, product and quotient lies wholly
/// before its right operand, so `x - y` subtracts what follows the minus from
/// what precedes it.
pub proof fn law_parse_keeps_source_order(b: Seq<u8>)
    requires
        b.len() <= MAX_EXPRESSION_BYTES,
    ensures
        parse_source(b) matches Ok(e) ==> source_ordered(e),
{
    let toks = lex_from(b, 0);
    lemma_lex_from_ordered(b, 0);
    if toks.len() > 0 && toks[0] is Ok {
        lemma_sum_ordered(toks, 0, 0, 0);
    }
}

} // verus!
