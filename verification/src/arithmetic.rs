//! Shared recursive-descent body for arithmetic expressions.
//!
//! ```text
//! additive       := multiplicative (`+`|`-` multiplicative)*
//! multiplicative := unary (`*`|`/` unary)*
//! unary          := `-` unary | `+` unary | primary
//! primary        := integer | boolean | identifier | `(` additive `)`
//! ```
//!
//! The parser reads a stream of optional tokens: `None` marks a token that is
//! not part of the arithmetic sublanguage (a comparison or logical operator of
//! an enclosing grammar), where parsing stops cleanly. A `-` directly before an
//! integer literal folds into it (so `i64::MIN` is writable); any other unary
//! minus lowers to `0 - operand`. Unary operators and parenthesized groups each
//! cost one level of a nesting budget shared with the caller.
use vstd::prelude::*;

use crate::model::{BinaryOperator, Expression, Value, VariableId};
use crate::text::{chars_of, decimal, push_decimal, string_from_chars};

verus! {

/// Maximum nesting depth accepted in an expression. Each unary operator that
/// does not fold into a literal, each parenthesized group and each `not`
/// costs one level.
pub const MAX_EXPRESSION_DEPTH: usize = 64;

/// The arithmetic token alphabet, without payloads.
#[derive(Debug, Clone, Copy, PartialEq, Eq, Structural)]
pub enum ArithmeticTokenKind {
    Int,
    Bool,
    Str,
    Ident,
    Plus,
    Minus,
    Star,
    Slash,
    LParen,
    RParen,
}

/// An arithmetic token with its payload.
#[derive(Debug, Clone, PartialEq, Eq)]
pub enum ArithmeticToken {
    Int(u64),
    Bool(bool),
    Str(String),
    Ident(String),
    Plus,
    Minus,
    Star,
    Slash,
    LParen,
    RParen,
}

impl ArithmeticToken {
    pub open spec fn kind_spec(&self) -> ArithmeticTokenKind {
        match self {
            ArithmeticToken::Int(_) => ArithmeticTokenKind::Int,
            ArithmeticToken::Bool(_) => ArithmeticTokenKind::Bool,
            ArithmeticToken::Str(_) => ArithmeticTokenKind::Str,
            ArithmeticToken::Ident(_) => ArithmeticTokenKind::Ident,
            ArithmeticToken::Plus => ArithmeticTokenKind::Plus,
            ArithmeticToken::Minus => ArithmeticTokenKind::Minus,
            ArithmeticToken::Star => ArithmeticTokenKind::Star,
            ArithmeticToken::Slash => ArithmeticTokenKind::Slash,
            ArithmeticToken::LParen => ArithmeticTokenKind::LParen,
            ArithmeticToken::RParen => ArithmeticTokenKind::RParen,
        }
    }

    /// The token's kind.
    pub fn kind(&self) -> (k: ArithmeticTokenKind)
        ensures
            k == self.kind_spec(),
    {
        match self {
            ArithmeticToken::Int(_) => ArithmeticTokenKind::Int,
            ArithmeticToken::Bool(_) => ArithmeticTokenKind::Bool,
            ArithmeticToken::Str(_) => ArithmeticTokenKind::Str,
            ArithmeticToken::Ident(_) => ArithmeticTokenKind::Ident,
            ArithmeticToken::Plus => ArithmeticTokenKind::Plus,
            ArithmeticToken::Minus => ArithmeticTokenKind::Minus,
            ArithmeticToken::Star => ArithmeticTokenKind::Star,
            ArithmeticToken::Slash => ArithmeticTokenKind::Slash,
            ArithmeticToken::LParen => ArithmeticTokenKind::LParen,
            ArithmeticToken::RParen => ArithmeticTokenKind::RParen,
        }
    }
}

/// The mathematical content of an [`ArithmeticToken`].
pub enum ArithTok {
    Int(u64),
    Bool(bool),
    Str(String),
    Ident(Seq<char>),
    Plus,
    Minus,
    Star,
    Slash,
    LParen,
    RParen,
}

impl View for ArithmeticToken {
    type V = ArithTok;

    open spec fn view(&self) -> ArithTok {
        match self {
            ArithmeticToken::Int(n) => ArithTok::Int(*n),
            ArithmeticToken::Bool(b) => ArithTok::Bool(*b),
            ArithmeticToken::Str(text) => ArithTok::Str(*text),
            ArithmeticToken::Ident(name) => ArithTok::Ident(name@),
            ArithmeticToken::Plus => ArithTok::Plus,
            ArithmeticToken::Minus => ArithTok::Minus,
            ArithmeticToken::Star => ArithTok::Star,
            ArithmeticToken::Slash => ArithTok::Slash,
            ArithmeticToken::LParen => ArithTok::LParen,
            ArithmeticToken::RParen => ArithTok::RParen,
        }
    }
}

/// The kind of a token view.
pub open spec fn tok_kind(t: ArithTok) -> ArithmeticTokenKind {
    match t {
        ArithTok::Int(_) => ArithmeticTokenKind::Int,
        ArithTok::Bool(_) => ArithmeticTokenKind::Bool,
        ArithTok::Str(_) => ArithmeticTokenKind::Str,
        ArithTok::Ident(_) => ArithmeticTokenKind::Ident,
        ArithTok::Plus => ArithmeticTokenKind::Plus,
        ArithTok::Minus => ArithmeticTokenKind::Minus,
        ArithTok::Star => ArithmeticTokenKind::Star,
        ArithTok::Slash => ArithmeticTokenKind::Slash,
        ArithTok::LParen => ArithmeticTokenKind::LParen,
        ArithTok::RParen => ArithmeticTokenKind::RParen,
    }
}

/// The views of a stream of optional tokens.
pub open spec fn stream_view(toks: Seq<Option<ArithmeticToken>>) -> Seq<Option<ArithTok>> {
    toks.map_values(|t: Option<ArithmeticToken>| match t {
        Some(x) => Some(x@),
        None => None,
    })
}

/// Errors of the arithmetic parser.
#[derive(Debug, Clone, PartialEq, Eq)]
pub enum ArithmeticError {
    /// The grammar did not accept the input at the current position.
    Malformed,
    /// A literal exceeded the `i64` range; carries its text with any sign.
    LiteralOverflow { literal: String },
    /// An identifier did not resolve.
    UndefinedVariable { name: String },
    /// A `(` was never closed.
    UnbalancedParentheses,
    /// The nesting budget was exceeded.
    ExpressionTooDeep,
}

/// The mathematical content of an [`ArithmeticError`].
pub enum ArithErr {
    Malformed,
    LiteralOverflow(Seq<char>),
    UndefinedVariable(Seq<char>),
    UnbalancedParentheses,
    ExpressionTooDeep,
}

impl View for ArithmeticError {
    type V = ArithErr;

    open spec fn view(&self) -> ArithErr {
        match self {
            ArithmeticError::Malformed => ArithErr::Malformed,
            ArithmeticError::LiteralOverflow { literal } => ArithErr::LiteralOverflow(literal@),
            ArithmeticError::UndefinedVariable { name } => ArithErr::UndefinedVariable(name@),
            ArithmeticError::UnbalancedParentheses => ArithErr::UnbalancedParentheses,
            ArithmeticError::ExpressionTooDeep => ArithErr::ExpressionTooDeep,
        }
    }
}

/// Resolves identifiers to declared variables.
pub trait VariableResolver {
    /// The variable `name` denotes, if any.
    spec fn resolves(&self, name: Seq<char>) -> Option<VariableId>;

    /// Look up a declared variable by name.
    fn resolve(&self, name: &str) -> (r: Option<VariableId>)
        ensures
            r == self.resolves(name@),
    ;

    /// Whether the variable `id` is a boolean flag.
    spec fn flags(&self, id: VariableId) -> bool;

    /// Whether the variable `id` is a boolean flag, which a condition may
    /// name on its own to mean that the flag is set.
    fn is_flag(&self, id: VariableId) -> (b: bool)
        ensures
            b == self.flags(id),
    ;
}

/// What parsing a piece of the grammar yields.
pub enum ArithOutcome {
    /// The expression and the position just after it.
    Parsed(Expression, int),
    Failed(ArithErr),
}

/// The kind of the arithmetic token at `pos`, or `None` at a stop token or
/// past the end.
pub open spec fn kind_at(toks: Seq<Option<ArithTok>>, pos: int) -> Option<ArithmeticTokenKind> {
    if 0 <= pos < toks.len() {
        match toks[pos] {
            Some(t) => Some(tok_kind(t)),
            None => None,
        }
    } else {
        None
    }
}

/// `-n` for a literal magnitude `n`: `i64::MIN` for 2^63; beyond that an
/// overflow carrying the signed text.
pub open spec fn negated_literal(n: u64) -> Result<i64, Seq<char>> {
    if n > 0x8000_0000_0000_0000 {
        Err(seq!['-'] + decimal(n as nat))
    } else if n == 0x8000_0000_0000_0000 {
        Ok(i64::MIN)
    } else {
        Ok((0 - n) as i64)
    }
}

pub open spec fn lit(v: i64) -> Expression {
    Expression::Literal(Value::Integer(v))
}

pub open spec fn bin(op: BinaryOperator, l: Expression, r: Expression) -> Expression {
    Expression::Binary { operator: op, left: Box::new(l), right: Box::new(r) }
}

/// `additive` at `pos`.
pub open spec fn arith_additive<R: VariableResolver>(
    toks: Seq<Option<ArithTok>>,
    pos: int,
    depth: int,
    r: R,
) -> ArithOutcome
    decreases toks.len() - pos, 5int,
{
    match arith_multiplicative(toks, pos, depth, r) {
        ArithOutcome::Failed(e) => ArithOutcome::Failed(e),
        ArithOutcome::Parsed(left, p) => if pos < p <= toks.len() {
            arith_additive_rest(toks, p, depth, r, left)
        } else {
            ArithOutcome::Failed(ArithErr::Malformed)
        },
    }
}

/// The `(+|-) multiplicative` tail of `additive`, folding onto `left`.
pub open spec fn arith_additive_rest<R: VariableResolver>(
    toks: Seq<Option<ArithTok>>,
    pos: int,
    depth: int,
    r: R,
    left: Expression,
) -> ArithOutcome
    decreases toks.len() - pos, 4int,
{
    let op = if kind_at(toks, pos) == Some(ArithmeticTokenKind::Plus) {
        Some(BinaryOperator::Add)
    } else if kind_at(toks, pos) == Some(ArithmeticTokenKind::Minus) {
        Some(BinaryOperator::Subtract)
    } else {
        None
    };
    match op {
        None => ArithOutcome::Parsed(left, pos),
        Some(op) => if 0 <= pos < toks.len() {
            match arith_multiplicative(toks, pos + 1, depth, r) {
                ArithOutcome::Failed(e) => ArithOutcome::Failed(e),
                ArithOutcome::Parsed(right, p) => if pos < p <= toks.len() {
                    arith_additive_rest(toks, p, depth, r, bin(op, left, right))
                } else {
                    ArithOutcome::Failed(ArithErr::Malformed)
                },
            }
        } else {
            ArithOutcome::Failed(ArithErr::Malformed)
        },
    }
}

/// `multiplicative` at `pos`.
pub open spec fn arith_multiplicative<R: VariableResolver>(
    toks: Seq<Option<ArithTok>>,
    pos: int,
    depth: int,
    r: R,
) -> ArithOutcome
    decreases toks.len() - pos, 3int,
{
    match arith_unary(toks, pos, depth, r) {
        ArithOutcome::Failed(e) => ArithOutcome::Failed(e),
        ArithOutcome::Parsed(left, p) => if pos < p <= toks.len() {
            arith_multiplicative_rest(toks, p, depth, r, left)
        } else {
            ArithOutcome::Failed(ArithErr::Malformed)
        },
    }
}

/// The `(*|/) unary` tail of `multiplicative`, folding onto `left`.
pub open spec fn arith_multiplicative_rest<R: VariableResolver>(
    toks: Seq<Option<ArithTok>>,
    pos: int,
    depth: int,
    r: R,
    left: Expression,
) -> ArithOutcome
    decreases toks.len() - pos, 3int,
{
    let op = if kind_at(toks, pos) == Some(ArithmeticTokenKind::Star) {
        Some(BinaryOperator::Multiply)
    } else if kind_at(toks, pos) == Some(ArithmeticTokenKind::Slash) {
        Some(BinaryOperator::Divide)
    } else {
        None
    };
    match op {
        None => ArithOutcome::Parsed(left, pos),
        Some(op) => if 0 <= pos < toks.len() {
            match arith_unary(toks, pos + 1, depth, r) {
                ArithOutcome::Failed(e) => ArithOutcome::Failed(e),
                ArithOutcome::Parsed(right, p) => if pos < p <= toks.len() {
                    arith_multiplicative_rest(toks, p, depth, r, bin(op, left, right))
                } else {
                    ArithOutcome::Failed(ArithErr::Malformed)
                },
            }
        } else {
            ArithOutcome::Failed(ArithErr::Malformed)
        },
    }
}

/// `unary` at `pos`.
pub open spec fn arith_unary<R: VariableResolver>(
    toks: Seq<Option<ArithTok>>,
    pos: int,
    depth: int,
    r: R,
) -> ArithOutcome
    decreases toks.len() - pos, 2int,
{
    if kind_at(toks, pos) == Some(ArithmeticTokenKind::Minus) {
        if kind_at(toks, pos + 1) == Some(ArithmeticTokenKind::Int) {
            match toks[pos + 1] {
                Some(ArithTok::Int(n)) => match negated_literal(n) {
                    Ok(v) => ArithOutcome::Parsed(lit(v), pos + 2),
                    Err(text) => ArithOutcome::Failed(ArithErr::LiteralOverflow(text)),
                },
                _ => ArithOutcome::Failed(ArithErr::Malformed),
            }
        } else if depth + 1 > MAX_EXPRESSION_DEPTH {
            ArithOutcome::Failed(ArithErr::ExpressionTooDeep)
        } else {
            match arith_unary(toks, pos + 1, depth + 1, r) {
                ArithOutcome::Failed(e) => ArithOutcome::Failed(e),
                ArithOutcome::Parsed(inner, p) => ArithOutcome::Parsed(
                    bin(BinaryOperator::Subtract, lit(0), inner),
                    p,
                ),
            }
        }
    } else if kind_at(toks, pos) == Some(ArithmeticTokenKind::Plus) {
        if depth + 1 > MAX_EXPRESSION_DEPTH {
            ArithOutcome::Failed(ArithErr::ExpressionTooDeep)
        } else {
            arith_unary(toks, pos + 1, depth + 1, r)
        }
    } else {
        arith_primary(toks, pos, depth, r)
    }
}

/// `primary` at `pos`.
pub open spec fn arith_primary<R: VariableResolver>(
    toks: Seq<Option<ArithTok>>,
    pos: int,
    depth: int,
    r: R,
) -> ArithOutcome
    decreases toks.len() - pos, 1int,
{
    if 0 <= pos < toks.len() {
        match toks[pos] {
            Some(ArithTok::Int(n)) => if n > i64::MAX {
                ArithOutcome::Failed(ArithErr::LiteralOverflow(decimal(n as nat)))
            } else {
                ArithOutcome::Parsed(lit(n as i64), pos + 1)
            },
            Some(ArithTok::Bool(b)) => ArithOutcome::Parsed(
                Expression::Literal(Value::Boolean(b)),
                pos + 1,
            ),
            Some(ArithTok::Str(text)) => ArithOutcome::Parsed(
                Expression::Literal(Value::String(text)),
                pos + 1,
            ),
            Some(ArithTok::Ident(name)) => match r.resolves(name) {
                Some(id) => ArithOutcome::Parsed(Expression::Variable(id), pos + 1),
                None => ArithOutcome::Failed(ArithErr::UndefinedVariable(name)),
            },
            Some(ArithTok::LParen) => if depth + 1 > MAX_EXPRESSION_DEPTH {
                ArithOutcome::Failed(ArithErr::ExpressionTooDeep)
            } else {
                match arith_additive(toks, pos + 1, depth + 1, r) {
                    ArithOutcome::Failed(e) => ArithOutcome::Failed(e),
                    ArithOutcome::Parsed(inner, p) => if kind_at(toks, p) == Some(
                        ArithmeticTokenKind::RParen,
                    ) {
                        ArithOutcome::Parsed(inner, p + 1)
                    } else {
                        ArithOutcome::Failed(ArithErr::UnbalancedParentheses)
                    },
                }
            },
            _ => ArithOutcome::Failed(ArithErr::Malformed),
        }
    } else {
        ArithOutcome::Failed(ArithErr::Malformed)
    }
}

/// Every variable in `e` is one that some name resolves to.
pub open spec fn vars_ok<R: VariableResolver>(e: Expression, r: R) -> bool
    decreases e,
{
    match e {
        Expression::Literal(_) => true,
        Expression::Variable(id) => exists|n: Seq<char>| r.resolves(n) == Some(id),
        Expression::Binary { left, right, .. } => vars_ok(*left, r) && vars_ok(*right, r),
    }
}

/// Whether an executable result agrees with a spec outcome and lies within
/// the stream.
pub open spec fn agrees<R: VariableResolver>(
    res: Result<(Expression, usize), ArithmeticError>,
    o: ArithOutcome,
    pos: int,
    len: int,
    r: R,
) -> bool {
    match res {
        Ok((e, p)) => o == ArithOutcome::Parsed(e, p as int) && pos < p <= len && vars_ok(e, r),
        Err(err) => o == ArithOutcome::Failed(err@),
    }
}

/// Two resolvers that map every name to the same variable.
pub open spec fn same_resolution<R1: VariableResolver, R2: VariableResolver>(r1: R1, r2: R2) -> bool {
    forall|n: Seq<char>| #[trigger] r1.resolves(n) == r2.resolves(n)
}

/// The grammar reads a resolver only through `resolves`: resolvers that
/// agree on every name give the same outcome.
pub proof fn lemma_additive_congruent<R1: VariableResolver, R2: VariableResolver>(
    toks: Seq<Option<ArithTok>>,
    pos: int,
    depth: int,
    r1: R1,
    r2: R2,
)
    requires
        same_resolution(r1, r2),
    ensures
        arith_additive(toks, pos, depth, r1) == arith_additive(toks, pos, depth, r2),
    decreases toks.len() - pos, 5int,
{
    lemma_multiplicative_congruent(toks, pos, depth, r1, r2);
    match arith_multiplicative(toks, pos, depth, r1) {
        ArithOutcome::Parsed(left, p) => if pos < p <= toks.len() {
            lemma_additive_rest_congruent(toks, p, depth, r1, r2, left);
        },
        ArithOutcome::Failed(_) => {},
    }
}

proof fn lemma_additive_rest_congruent<R1: VariableResolver, R2: VariableResolver>(
    toks: Seq<Option<ArithTok>>,
    pos: int,
    depth: int,
    r1: R1,
    r2: R2,
    left: Expression,
)
    requires
        same_resolution(r1, r2),
    ensures
        arith_additive_rest(toks, pos, depth, r1, left) == arith_additive_rest(toks, pos, depth, r2, left),
    decreases toks.len() - pos, 4int,
{
    let op = if kind_at(toks, pos) == Some(ArithmeticTokenKind::Plus) {
        Some(BinaryOperator::Add)
    } else if kind_at(toks, pos) == Some(ArithmeticTokenKind::Minus) {
        Some(BinaryOperator::Subtract)
    } else {
        None
    };
    if op is Some && 0 <= pos < toks.len() {
        lemma_multiplicative_congruent(toks, pos + 1, depth, r1, r2);
        match arith_multiplicative(toks, pos + 1, depth, r1) {
            ArithOutcome::Parsed(right, p) => if pos < p <= toks.len() {
                lemma_additive_rest_congruent(toks, p, depth, r1, r2, bin(op->0, left, right));
            },
            ArithOutcome::Failed(_) => {},
        }
    }
}

proof fn lemma_multiplicative_congruent<R1: VariableResolver, R2: VariableResolver>(
    toks: Seq<Option<ArithTok>>,
    pos: int,
    depth: int,
    r1: R1,
    r2: R2,
)
    requires
        same_resolution(r1, r2),
    ensures
        arith_multiplicative(toks, pos, depth, r1) == arith_multiplicative(toks, pos, depth, r2),
    decreases toks.len() - pos, 3int,
{
    lemma_unary_congruent(toks, pos, depth, r1, r2);
    match arith_unary(toks, pos, depth, r1) {
        ArithOutcome::Parsed(left, p) => if pos < p <= toks.len() {
            lemma_multiplicative_rest_congruent(toks, p, depth, r1, r2, left);
        },
        ArithOutcome::Failed(_) => {},
    }
}

proof fn lemma_multiplicative_rest_congruent<R1: VariableResolver, R2: VariableResolver>(
    toks: Seq<Option<ArithTok>>,
    pos: int,
    depth: int,
    r1: R1,
    r2: R2,
    left: Expression,
)
    requires
        same_resolution(r1, r2),
    ensures
        arith_multiplicative_rest(toks, pos, depth, r1, left) == arith_multiplicative_rest(
            toks,
            pos,
            depth,
            r2,
            left,
        ),
    decreases toks.len() - pos, 3int,
{
    let op = if kind_at(toks, pos) == Some(ArithmeticTokenKind::Star) {
        Some(BinaryOperator::Multiply)
    } else if kind_at(toks, pos) == Some(ArithmeticTokenKind::Slash) {
        Some(BinaryOperator::Divide)
    } else {
        None
    };
    if op is Some && 0 <= pos < toks.len() {
        lemma_unary_congruent(toks, pos + 1, depth, r1, r2);
        match arith_unary(toks, pos + 1, depth, r1) {
            ArithOutcome::Parsed(right, p) => if pos < p <= toks.len() {
                lemma_multiplicative_rest_congruent(toks, p, depth, r1, r2, bin(op->0, left, right));
            },
            ArithOutcome::Failed(_) => {},
        }
    }
}

proof fn lemma_unary_congruent<R1: VariableResolver, R2: VariableResolver>(
    toks: Seq<Option<ArithTok>>,
    pos: int,
    depth: int,
    r1: R1,
    r2: R2,
)
    requires
        same_resolution(r1, r2),
    ensures
        arith_unary(toks, pos, depth, r1) == arith_unary(toks, pos, depth, r2),
    decreases toks.len() - pos, 2int,
{
    if kind_at(toks, pos) == Some(ArithmeticTokenKind::Minus) {
        if kind_at(toks, pos + 1) != Some(ArithmeticTokenKind::Int) && depth + 1 <= MAX_EXPRESSION_DEPTH {
            lemma_unary_congruent(toks, pos + 1, depth + 1, r1, r2);
        }
    } else if kind_at(toks, pos) == Some(ArithmeticTokenKind::Plus) {
        if depth + 1 <= MAX_EXPRESSION_DEPTH {
            lemma_unary_congruent(toks, pos + 1, depth + 1, r1, r2);
        }
    } else {
        lemma_primary_congruent(toks, pos, depth, r1, r2);
    }
}

proof fn lemma_primary_congruent<R1: VariableResolver, R2: VariableResolver>(
    toks: Seq<Option<ArithTok>>,
    pos: int,
    depth: int,
    r1: R1,
    r2: R2,
)
    requires
        same_resolution(r1, r2),
    ensures
        arith_primary(toks, pos, depth, r1) == arith_primary(toks, pos, depth, r2),
    decreases toks.len() - pos, 1int,
{
    if 0 <= pos < toks.len() {
        match toks[pos] {
            Some(ArithTok::Ident(name)) => {
                assert(r1.resolves(name) == r2.resolves(name));
            },
            Some(ArithTok::LParen) => if depth + 1 <= MAX_EXPRESSION_DEPTH {
                lemma_additive_congruent(toks, pos + 1, depth + 1, r1, r2);
            },
            _ => {},
        }
    }
}

/// Parse an arithmetic expression from `toks` starting at `pos`, with
/// `depth` levels of the nesting budget already used. On success, returns the
/// expression and the position of the first token the grammar did not accept.
pub fn parse_arithmetic_expression<R: VariableResolver>(
    toks: &Vec<Option<ArithmeticToken>>,
    pos: usize,
    depth: usize,
    resolver: &R,
) -> (res: Result<(Expression, usize), ArithmeticError>)
    requires
        depth <= MAX_EXPRESSION_DEPTH,
    ensures
        agrees(res, arith_additive(stream_view(toks@), pos as int, depth as int, *resolver), pos as int, toks@.len() as int, *resolver),
{
    parse_additive(toks, pos, depth, resolver)
}

fn peek_kind(toks: &Vec<Option<ArithmeticToken>>, pos: usize) -> (k: Option<ArithmeticTokenKind>)
    ensures
        k == kind_at(stream_view(toks@), pos as int),
        toks@.len() <= usize::MAX,
{
    if pos < toks.len() {
        match &toks[pos] {
            Some(t) => Some(t.kind()),
            None => None,
        }
    } else {
        None
    }
}

fn parse_additive<R: VariableResolver>(
    toks: &Vec<Option<ArithmeticToken>>,
    pos: usize,
    depth: usize,
    resolver: &R,
) -> (res: Result<(Expression, usize), ArithmeticError>)
    requires
        depth <= MAX_EXPRESSION_DEPTH,
    ensures
        agrees(res, arith_additive(stream_view(toks@), pos as int, depth as int, *resolver), pos as int, toks@.len() as int, *resolver),
    decreases toks@.len() - pos, 5int,
{
    let (mut left, mut p) = match parse_multiplicative(toks, pos, depth, resolver) {
        Err(e) => return Err(e),
        Ok(x) => x,
    };
    let ghost first_left = left;
    let ghost first_p = p;
    loop
        invariant
            depth <= MAX_EXPRESSION_DEPTH,
            pos < first_p <= p <= toks@.len(),
            vars_ok(left, *resolver),
            arith_additive(stream_view(toks@), pos as int, depth as int, *resolver) == arith_additive_rest(
                stream_view(toks@),
                p as int,
                depth as int,
                *resolver,
                left,
            ),
        decreases toks@.len() - p,
    {
        let k = peek_kind(toks, p);
        let op = match k {
            Some(ArithmeticTokenKind::Plus) => BinaryOperator::Add,
            Some(ArithmeticTokenKind::Minus) => BinaryOperator::Subtract,
            _ => {
                return Ok((left, p));
            },
        };
        assert(p < toks@.len());
        let (right, p2) = match parse_multiplicative(toks, p + 1, depth, resolver) {
            Err(e) => return Err(e),
            Ok(x) => x,
        };
        left = Expression::Binary { operator: op, left: Box::new(left), right: Box::new(right) };
        p = p2;
    }
}

fn parse_multiplicative<R: VariableResolver>(
    toks: &Vec<Option<ArithmeticToken>>,
    pos: usize,
    depth: usize,
    resolver: &R,
) -> (res: Result<(Expression, usize), ArithmeticError>)
    requires
        depth <= MAX_EXPRESSION_DEPTH,
    ensures
        agrees(res, arith_multiplicative(stream_view(toks@), pos as int, depth as int, *resolver), pos as int, toks@.len() as int, *resolver),
    decreases toks@.len() - pos, 3int,
{
    let (mut left, mut p) = match parse_unary(toks, pos, depth, resolver) {
        Err(e) => return Err(e),
        Ok(x) => x,
    };
    loop
        invariant
            depth <= MAX_EXPRESSION_DEPTH,
            pos < p <= toks@.len(),
            vars_ok(left, *resolver),
            arith_multiplicative(stream_view(toks@), pos as int, depth as int, *resolver)
                == arith_multiplicative_rest(stream_view(toks@), p as int, depth as int, *resolver, left),
        decreases toks@.len() - p,
    {
        let k = peek_kind(toks, p);
        let op = match k {
            Some(ArithmeticTokenKind::Star) => BinaryOperator::Multiply,
            Some(ArithmeticTokenKind::Slash) => BinaryOperator::Divide,
            _ => {
                return Ok((left, p));
            },
        };
        assert(p < toks@.len());
        let (right, p2) = match parse_unary(toks, p + 1, depth, resolver) {
            Err(e) => return Err(e),
            Ok(x) => x,
        };
        left = Expression::Binary { operator: op, left: Box::new(left), right: Box::new(right) };
        p = p2;
    }
}

fn parse_unary<R: VariableResolver>(
    toks: &Vec<Option<ArithmeticToken>>,
    pos: usize,
    depth: usize,
    resolver: &R,
) -> (res: Result<(Expression, usize), ArithmeticError>)
    requires
        depth <= MAX_EXPRESSION_DEPTH,
    ensures
        agrees(res, arith_unary(stream_view(toks@), pos as int, depth as int, *resolver), pos as int, toks@.len() as int, *resolver),
    decreases toks@.len() - pos, 2int,
{
    match peek_kind(toks, pos) {
        Some(ArithmeticTokenKind::Minus) => {
            assert(pos < toks@.len());
            if let Some(ArithmeticTokenKind::Int) = peek_kind(toks, pos + 1) {
                match &toks[pos + 1] {
                    Some(ArithmeticToken::Int(n)) => {
                        return match negate_u64_literal(*n) {
                            Ok(v) => Ok((Expression::Literal(Value::Integer(v)), pos + 2)),
                            Err(e) => Err(e),
                        };
                    },
                    _ => {
                        return Err(ArithmeticError::Malformed);
                    },
                }
            }
            if depth + 1 > MAX_EXPRESSION_DEPTH {
                return Err(ArithmeticError::ExpressionTooDeep);
            }
            let (inner, p) = match parse_unary(toks, pos + 1, depth + 1, resolver) {
                Err(e) => return Err(e),
                Ok(x) => x,
            };
            assert(vars_ok(Expression::Literal(Value::Integer(0)), *resolver));
            Ok(
                (
                    Expression::Binary {
                        operator: BinaryOperator::Subtract,
                        left: Box::new(Expression::Literal(Value::Integer(0))),
                        right: Box::new(inner),
                    },
                    p,
                ),
            )
        },
        Some(ArithmeticTokenKind::Plus) => {
            assert(pos < toks@.len());
            if depth + 1 > MAX_EXPRESSION_DEPTH {
                return Err(ArithmeticError::ExpressionTooDeep);
            }
            parse_unary(toks, pos + 1, depth + 1, resolver)
        },
        _ => parse_primary(toks, pos, depth, resolver),
    }
}

fn parse_primary<R: VariableResolver>(
    toks: &Vec<Option<ArithmeticToken>>,
    pos: usize,
    depth: usize,
    resolver: &R,
) -> (res: Result<(Expression, usize), ArithmeticError>)
    requires
        depth <= MAX_EXPRESSION_DEPTH,
    ensures
        agrees(res, arith_primary(stream_view(toks@), pos as int, depth as int, *resolver), pos as int, toks@.len() as int, *resolver),
    decreases toks@.len() - pos, 1int,
{
    if pos >= toks.len() {
        return Err(ArithmeticError::Malformed);
    }
    match &toks[pos] {
        Some(ArithmeticToken::Int(n)) => {
            if *n > 0x7fff_ffff_ffff_ffff {
                let mut text: Vec<char> = Vec::new();
                push_decimal(&mut text, *n);
                return Err(ArithmeticError::LiteralOverflow { literal: string_from_chars(text.as_slice()) });
            }
            Ok((Expression::Literal(Value::Integer(*n as i64)), pos + 1))
        },
        Some(ArithmeticToken::Bool(b)) => Ok((Expression::Literal(Value::Boolean(*b)), pos + 1)),
        Some(ArithmeticToken::Str(text)) => Ok((Expression::Literal(Value::String(text.clone())), pos + 1)),
        Some(ArithmeticToken::Ident(name)) => match resolver.resolve(name.as_str()) {
            Some(id) => Ok((Expression::Variable(id), pos + 1)),
            None => Err(ArithmeticError::UndefinedVariable { name: name.clone() }),
        },
        Some(ArithmeticToken::LParen) => {
            if depth + 1 > MAX_EXPRESSION_DEPTH {
                return Err(ArithmeticError::ExpressionTooDeep);
            }
            let (inner, p) = match parse_additive(toks, pos + 1, depth + 1, resolver) {
                Err(e) => return Err(e),
                Ok(x) => x,
            };
            match peek_kind(toks, p) {
                Some(ArithmeticTokenKind::RParen) => Ok((inner, p + 1)),
                _ => Err(ArithmeticError::UnbalancedParentheses),
            }
        },
        _ => Err(ArithmeticError::Malformed),
    }
}

/// `-n` without intermediate overflow: `i64::MIN` for 2^63; anything larger
/// is a literal overflow carrying the signed text.
pub(crate) fn negate_u64_literal(n: u64) -> (r: Result<i64, ArithmeticError>)
    ensures
        match negated_literal(n) {
            Ok(v) => r == Ok::<i64, ArithmeticError>(v),
            Err(text) => r matches Err(e) && e@ == ArithErr::LiteralOverflow(text),
        },
{
    if n > 0x8000_0000_0000_0000 {
        let mut text: Vec<char> = Vec::new();
        text.push('-');
        assert(text@ =~= seq!['-']);
        push_decimal(&mut text, n);
        return Err(ArithmeticError::LiteralOverflow { literal: string_from_chars(text.as_slice()) });
    }
    if n == 0x8000_0000_0000_0000 {
        return Ok(i64::MIN);
    }
    Ok(0 - (n as i64))
}

} // verus!
