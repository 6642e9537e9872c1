//! Recursive-descent parser for `req` boolean expressions.
//!
//! Grammar (loosest precedence first):
//! ```text
//! or_expr    := and_expr (`or` and_expr)*
//! and_expr   := not_expr (`and` not_expr)*
//! not_expr   := `not` not_expr | primary
//! primary    := `(` or_expr `)` | comparison
//! comparison := arith_expr compare_op arith_expr
//! ```
//!
//! Arithmetic operands of comparisons are parsed by the shared body in
//! [`crate::arithmetic`], which sees the boolean tokens projected onto the
//! arithmetic alphabet (logical and comparison tokens stop it). A leading `(`
//! is read as the arithmetic left side of a comparison when, after its
//! matching `)` and any arithmetic continuation, a comparison operator
//! follows; otherwise it opens a boolean group. `not`, boolean groups and the
//! nesting of the arithmetic operands share one depth budget.
use vstd::prelude::*;

pub use crate::arithmetic::{VariableResolver, MAX_EXPRESSION_DEPTH};
use crate::arithmetic::{
    arith_additive, parse_arithmetic_expression, stream_view, vars_ok, ArithErr, ArithOutcome,
    ArithTok, ArithmeticError, ArithmeticToken,
};
use crate::expression::{
    digit_run_end, digits_value, ident_run_end, lemma_digit_run_end, lemma_ident_run_end,
};
use crate::model::{BooleanExpression, ComparisonOperator, Expression, RequirementStatement, Value};
use crate::text::{
    chars_eq, chars_of, is_alnum, is_alpha, is_ascii_alphabetic, is_ascii_alphanumeric,
    is_ascii_digit, is_digit, is_whitespace, is_ws, slice_chars, string_from_chars,
};

verus! {

/// Errors produced while parsing a `req` boolean expression.
#[derive(Debug, Clone, PartialEq, Eq)]
pub enum BooleanParseError {
    /// A bare arithmetic expression was an operand of `and`/`or`.
    BareIntegerOperandOfLogical { operator: LogicalKeyword },
    /// A bare arithmetic expression was the operand of `not`.
    BareIntegerOperandOfNot,
    /// A bare arithmetic expression stood where the whole condition was expected.
    BareIntegerAtTop,
    /// `and` or `or` had no left operand.
    MissingLeftOperand { operator: LogicalKeyword },
    /// `and` or `or` had no right operand.
    MissingRightOperand { operator: LogicalKeyword },
    /// `not` had no operand.
    MissingNotOperand,
    /// Parentheses do not balance.
    UnbalancedParentheses,
    /// An identifier did not resolve.
    UndefinedVariable { name: String },
    /// A symbol that is not part of the grammar; carries the whole run of
    /// symbol characters.
    UnknownSymbol { symbol: String },
    /// Any other structural failure.
    Malformed,
    /// A literal exceeded the integer range; carries its text.
    LiteralOverflow { literal: String },
    /// The expression nests deeper than [`MAX_EXPRESSION_DEPTH`].
    ExpressionTooDeep,
    /// `==` was written for equality; the grammar's equality is a single `=`.
    DoubleEquals,
}

/// A logical-operator keyword.
#[derive(Debug, Clone, Copy, PartialEq, Eq, Structural)]
pub enum LogicalKeyword {
    And,
    Or,
}

impl LogicalKeyword {
    pub open spec fn text(self) -> Seq<char> {
        match self {
            LogicalKeyword::And => "and"@,
            LogicalKeyword::Or => "or"@,
        }
    }

    /// The keyword as written in scripts.
    pub fn as_str(self) -> (s: &'static str)
        ensures
            s@ == self.text(),
    {
        match self {
            LogicalKeyword::And => "and",
            LogicalKeyword::Or => "or",
        }
    }
}

/// The mathematical content of a [`BooleanParseError`].
pub enum BErr {
    BareIntegerOperandOfLogical(LogicalKeyword),
    BareIntegerOperandOfNot,
    BareIntegerAtTop,
    MissingLeftOperand(LogicalKeyword),
    MissingRightOperand(LogicalKeyword),
    MissingNotOperand,
    UnbalancedParentheses,
    UndefinedVariable(Seq<char>),
    UnknownSymbol(Seq<char>),
    Malformed,
    LiteralOverflow(Seq<char>),
    ExpressionTooDeep,
    DoubleEquals,
}

impl View for BooleanParseError {
    type V = BErr;

    open spec fn view(&self) -> BErr {
        match self {
            BooleanParseError::BareIntegerOperandOfLogical { operator } => BErr::BareIntegerOperandOfLogical(*operator),
            BooleanParseError::BareIntegerOperandOfNot => BErr::BareIntegerOperandOfNot,
            BooleanParseError::BareIntegerAtTop => BErr::BareIntegerAtTop,
            BooleanParseError::MissingLeftOperand { operator } => BErr::MissingLeftOperand(*operator),
            BooleanParseError::MissingRightOperand { operator } => BErr::MissingRightOperand(*operator),
            BooleanParseError::MissingNotOperand => BErr::MissingNotOperand,
            BooleanParseError::UnbalancedParentheses => BErr::UnbalancedParentheses,
            BooleanParseError::UndefinedVariable { name } => BErr::UndefinedVariable(name@),
            BooleanParseError::UnknownSymbol { symbol } => BErr::UnknownSymbol(symbol@),
            BooleanParseError::Malformed => BErr::Malformed,
            BooleanParseError::LiteralOverflow { literal } => BErr::LiteralOverflow(literal@),
            BooleanParseError::ExpressionTooDeep => BErr::ExpressionTooDeep,
            BooleanParseError::DoubleEquals => BErr::DoubleEquals,
        }
    }
}

// ---------------------------------------------------------------------------
// Tokens
// ---------------------------------------------------------------------------

#[derive(Debug, Clone, PartialEq, Eq)]
enum Token {
    Int(u64),
    Bool(bool),
    Ident(String),
    LogicalAnd,
    LogicalOr,
    LogicalNot,
    Plus,
    Minus,
    Star,
    Slash,
    Equal,
    NotEqual,
    Less,
    LessOrEqual,
    Greater,
    GreaterOrEqual,
    LParen,
    RParen,
}

/// The mathematical content of a token of the boolean grammar.
pub enum BTok {
    Int(u64),
    Bool(bool),
    Ident(Seq<char>),
    And,
    Or,
    Not,
    Plus,
    Minus,
    Star,
    Slash,
    Equal,
    NotEqual,
    Less,
    LessOrEqual,
    Greater,
    GreaterOrEqual,
    LParen,
    RParen,
}

impl View for Token {
    type V = BTok;

    closed spec fn view(&self) -> BTok {
        match self {
            Token::Int(n) => BTok::Int(*n),
            Token::Bool(b) => BTok::Bool(*b),
            Token::Ident(s) => BTok::Ident(s@),
            Token::LogicalAnd => BTok::And,
            Token::LogicalOr => BTok::Or,
            Token::LogicalNot => BTok::Not,
            Token::Plus => BTok::Plus,
            Token::Minus => BTok::Minus,
            Token::Star => BTok::Star,
            Token::Slash => BTok::Slash,
            Token::Equal => BTok::Equal,
            Token::NotEqual => BTok::NotEqual,
            Token::Less => BTok::Less,
            Token::LessOrEqual => BTok::LessOrEqual,
            Token::Greater => BTok::Greater,
            Token::GreaterOrEqual => BTok::GreaterOrEqual,
            Token::LParen => BTok::LParen,
            Token::RParen => BTok::RParen,
        }
    }
}

/// Tokenizing failures.
pub enum BLexErr {
    UnknownSymbol(Seq<char>),
    LiteralOverflow(Seq<char>),
    DoubleEquals,
}

/// Characters that end a run of unknown symbols.
pub open spec fn ends_symbol_run(c: char) -> bool {
    is_ws(c) || is_alnum(c) || c == '_' || c == '(' || c == ')'
}

/// The end of the run of unknown-symbol characters starting at `i`.
pub open spec fn symbol_run_end(s: Seq<char>, i: int) -> int
    decreases s.len() - i,
{
    if 0 <= i < s.len() && !ends_symbol_run(s[i]) {
        symbol_run_end(s, i + 1)
    } else {
        i
    }
}

/// The token a word denotes: the lowercase logical keywords, or an identifier.
pub open spec fn bool_word_token(w: Seq<char>) -> BTok {
    if w == "and"@ {
        BTok::And
    } else if w == "or"@ {
        BTok::Or
    } else if w == "not"@ {
        BTok::Not
    } else if w == "true"@ {
        BTok::Bool(true)
    } else if w == "false"@ {
        BTok::Bool(false)
    } else {
        BTok::Ident(w)
    }
}

pub open spec fn cons_btok(t: BTok, r: Result<Seq<BTok>, BLexErr>) -> Result<Seq<BTok>, BLexErr> {
    match r {
        Ok(ts) => Ok(seq![t] + ts),
        Err(e) => Err(e),
    }
}

pub open spec fn append_btoks(pre: Seq<BTok>, r: Result<Seq<BTok>, BLexErr>) -> Result<Seq<BTok>, BLexErr> {
    match r {
        Ok(ts) => Ok(pre + ts),
        Err(e) => Err(e),
    }
}

/// The tokens of `s` from index `i` on.
pub open spec fn lex_bool(s: Seq<char>, i: int) -> Result<Seq<BTok>, BLexErr>
    decreases s.len() - i,
{
    if i < 0 || i >= s.len() {
        Ok(seq![])
    } else {
        let c = s[i];
        let next_is_eq = i + 1 < s.len() && s[i + 1] == '=';
        if is_ws(c) {
            lex_bool(s, i + 1)
        } else if c == '+' {
            cons_btok(BTok::Plus, lex_bool(s, i + 1))
        } else if c == '-' {
            cons_btok(BTok::Minus, lex_bool(s, i + 1))
        } else if c == '*' {
            cons_btok(BTok::Star, lex_bool(s, i + 1))
        } else if c == '/' {
            cons_btok(BTok::Slash, lex_bool(s, i + 1))
        } else if c == '(' {
            cons_btok(BTok::LParen, lex_bool(s, i + 1))
        } else if c == ')' {
            cons_btok(BTok::RParen, lex_bool(s, i + 1))
        } else if c == '>' {
            if next_is_eq {
                cons_btok(BTok::GreaterOrEqual, lex_bool(s, i + 2))
            } else {
                cons_btok(BTok::Greater, lex_bool(s, i + 1))
            }
        } else if c == '<' {
            if next_is_eq {
                cons_btok(BTok::LessOrEqual, lex_bool(s, i + 2))
            } else {
                cons_btok(BTok::Less, lex_bool(s, i + 1))
            }
        } else if c == '=' {
            if next_is_eq {
                Err(BLexErr::DoubleEquals)
            } else {
                cons_btok(BTok::Equal, lex_bool(s, i + 1))
            }
        } else if c == '!' {
            if next_is_eq {
                cons_btok(BTok::NotEqual, lex_bool(s, i + 2))
            } else {
                Err(BLexErr::UnknownSymbol(seq!['!']))
            }
        } else if is_digit(c) {
            let e = digit_run_end(s, i);
            if i < e <= s.len() {
                let v = digits_value(s.subrange(i, e));
                if v > u64::MAX {
                    Err(BLexErr::LiteralOverflow(s.subrange(i, e)))
                } else {
                    cons_btok(BTok::Int(v as u64), lex_bool(s, e))
                }
            } else {
                Err(BLexErr::UnknownSymbol(seq![]))
            }
        } else if is_alpha(c) || c == '_' {
            let e = ident_run_end(s, i);
            if i < e <= s.len() {
                cons_btok(bool_word_token(s.subrange(i, e)), lex_bool(s, e))
            } else {
                Err(BLexErr::UnknownSymbol(seq![]))
            }
        } else {
            Err(BLexErr::UnknownSymbol(s.subrange(i, symbol_run_end(s, i))))
        }
    }
}

pub proof fn lemma_symbol_run_end(s: Seq<char>, i: int)
    requires
        0 <= i <= s.len(),
    ensures
        i <= symbol_run_end(s, i) <= s.len(),
    decreases s.len() - i,
{
    if i < s.len() && !ends_symbol_run(s[i]) {
        lemma_symbol_run_end(s, i + 1);
    }
}

spec fn btoks_view(toks: Seq<Token>) -> Seq<BTok> {
    toks.map_values(|t: Token| t@)
}

proof fn lemma_btoks_push(toks: Seq<Token>, t: Token)
    ensures
        btoks_view(toks.push(t)) == btoks_view(toks).push(t@),
{
    assert(btoks_view(toks.push(t)) =~= btoks_view(toks).push(t@));
}

proof fn lemma_append_cons_b(pre: Seq<BTok>, t: BTok, r: Result<Seq<BTok>, BLexErr>)
    ensures
        append_btoks(pre, cons_btok(t, r)) == append_btoks(pre.push(t), r),
{
    if let Ok(ts) = r {
        assert(pre + (seq![t] + ts) =~= pre.push(t) + ts);
    }
}

#[derive(Debug, Clone, PartialEq, Eq)]
enum TokenizeError {
    UnknownSymbol(String),
    LiteralOverflow(String),
    DoubleEquals,
}

fn digits_run_value(s: &[char], i: usize, e: usize) -> (r: Option<u64>)
    requires
        i <= e <= s@.len(),
        forall|j: int| i <= j < e ==> is_digit(#[trigger] s@[j]),
    ensures
        match r {
            Some(v) => v == digits_value(s@.subrange(i as int, e as int)),
            None => digits_value(s@.subrange(i as int, e as int)) > u64::MAX,
        },
{
    crate::expression::digits_to_u64(s, i, e)
}

fn tokenize(input: &[char]) -> (r: Result<Vec<Token>, TokenizeError>)
    ensures
        match lex_bool(input@, 0) {
            Ok(ts) => r matches Ok(toks) && btoks_view(toks@) == ts,
            Err(BLexErr::UnknownSymbol(sym)) => r matches Err(TokenizeError::UnknownSymbol(t)) && t@ == sym,
            Err(BLexErr::LiteralOverflow(text)) => r matches Err(TokenizeError::LiteralOverflow(t)) && t@ == text,
            Err(BLexErr::DoubleEquals) => r matches Err(TokenizeError::DoubleEquals),
        },
{
    let mut tokens: Vec<Token> = Vec::new();
    let mut i: usize = 0;
    let and_word = chars_of("and");
    let or_word = chars_of("or");
    let not_word = chars_of("not");
    let true_word = chars_of("true");
    let false_word = chars_of("false");
    while i < input.len()
        invariant
            0 <= i <= input@.len(),
            and_word@ == "and"@,
            or_word@ == "or"@,
            not_word@ == "not"@,
            true_word@ == "true"@,
            false_word@ == "false"@,
            lex_bool(input@, 0) == append_btoks(btoks_view(tokens@), lex_bool(input@, i as int)),
        decreases input.len() - i,
    {
        let c = input[i];
        let ghost before = btoks_view(tokens@);
        if is_whitespace(c) {
            i = i + 1;
            continue;
        }
        let next_is_eq = i + 1 < input.len() && input[i + 1] == '=';
        // Single- and double-character tokens: (token, width).
        let fixed: Option<(Token, usize)> = if c == '+' {
            Some((Token::Plus, 1))
        } else if c == '-' {
            Some((Token::Minus, 1))
        } else if c == '*' {
            Some((Token::Star, 1))
        } else if c == '/' {
            Some((Token::Slash, 1))
        } else if c == '(' {
            Some((Token::LParen, 1))
        } else if c == ')' {
            Some((Token::RParen, 1))
        } else if c == '>' {
            if next_is_eq {
                Some((Token::GreaterOrEqual, 2))
            } else {
                Some((Token::Greater, 1))
            }
        } else if c == '<' {
            if next_is_eq {
                Some((Token::LessOrEqual, 2))
            } else {
                Some((Token::Less, 1))
            }
        } else if c == '=' {
            if next_is_eq {
                return Err(TokenizeError::DoubleEquals);
            }
            Some((Token::Equal, 1))
        } else if c == '!' {
            if next_is_eq {
                Some((Token::NotEqual, 2))
            } else {
                let bang: Vec<char> = vec!['!'];
                assert(bang@ =~= seq!['!']);
                return Err(TokenizeError::UnknownSymbol(string_from_chars(bang.as_slice())));
            }
        } else {
            None
        };
        match fixed {
            Some((t, width)) => {
                let ghost tv = t@;
                proof {
                    lemma_btoks_push(tokens@, t);
                    lemma_append_cons_b(before, tv, lex_bool(input@, i + width));
                }
                tokens.push(t);
                i = i + width;
            },
            None => {
                if is_ascii_digit(c) {
                    let e = crate::expression::scan_digits(input, i);
                    proof {
                        lemma_digit_run_end(input@, i as int);
                    }
                    match digits_run_value(input, i, e) {
                        None => {
                            let text = slice_chars(input, i, e);
                            return Err(TokenizeError::LiteralOverflow(string_from_chars(text.as_slice())));
                        },
                        Some(v) => {
                            let t = Token::Int(v);
                            proof {
                                lemma_btoks_push(tokens@, t);
                                lemma_append_cons_b(before, BTok::Int(v), lex_bool(input@, e as int));
                            }
                            tokens.push(t);
                            i = e;
                        },
                    }
                } else if is_ascii_alphabetic(c) || c == '_' {
                    let e = crate::expression::scan_ident(input, i);
                    proof {
                        lemma_ident_run_end(input@, i as int);
                    }
                    let word = slice_chars(input, i, e);
                    let t = if chars_eq(word.as_slice(), and_word.as_slice()) {
                        Token::LogicalAnd
                    } else if chars_eq(word.as_slice(), or_word.as_slice()) {
                        Token::LogicalOr
                    } else if chars_eq(word.as_slice(), not_word.as_slice()) {
                        Token::LogicalNot
                    } else if chars_eq(word.as_slice(), true_word.as_slice()) {
                        Token::Bool(true)
                    } else if chars_eq(word.as_slice(), false_word.as_slice()) {
                        Token::Bool(false)
                    } else {
                        Token::Ident(string_from_chars(word.as_slice()))
                    };
                    let ghost tv = t@;
                    assert(tv == bool_word_token(input@.subrange(i as int, e as int)));
                    proof {
                        lemma_btoks_push(tokens@, t);
                        lemma_append_cons_b(before, tv, lex_bool(input@, e as int));
                    }
                    tokens.push(t);
                    i = e;
                } else {
                    let mut e = i;
                    while e < input.len() && !(is_whitespace(input[e]) || is_ascii_alphanumeric(input[e])
                        || input[e] == '_' || input[e] == '(' || input[e] == ')')
                        invariant
                            i <= e <= input@.len(),
                            symbol_run_end(input@, i as int) == symbol_run_end(input@, e as int),
                        decreases input.len() - e,
                    {
                        e = e + 1;
                    }
                    let symbol = slice_chars(input, i, e);
                    return Err(TokenizeError::UnknownSymbol(string_from_chars(symbol.as_slice())));
                }
            },
        }
    }
    assert(btoks_view(tokens@) + seq![] =~= btoks_view(tokens@));
    Ok(tokens)
}

// ---------------------------------------------------------------------------
// Grammar
// ---------------------------------------------------------------------------

/// Where a comparison was expected, for naming the surrounding operator
/// when a bare arithmetic expression stands there instead.
#[derive(Debug, Clone, Copy, PartialEq, Eq, Structural)]
pub enum LogicalContext {
    OuterOrTop,
    RightOfAnd,
    RightOfOr,
    OperandOfNot,
}

/// The arithmetic view of a boolean token: comparison and logical tokens
/// stop the arithmetic grammar.
pub open spec fn project(t: BTok) -> Option<ArithTok> {
    match t {
        BTok::Int(n) => Some(ArithTok::Int(n)),
        BTok::Bool(b) => Some(ArithTok::Bool(b)),
        BTok::Ident(s) => Some(ArithTok::Ident(s)),
        BTok::Plus => Some(ArithTok::Plus),
        BTok::Minus => Some(ArithTok::Minus),
        BTok::Star => Some(ArithTok::Star),
        BTok::Slash => Some(ArithTok::Slash),
        BTok::LParen => Some(ArithTok::LParen),
        BTok::RParen => Some(ArithTok::RParen),
        _ => None,
    }
}

pub open spec fn projected(toks: Seq<BTok>) -> Seq<Option<ArithTok>> {
    toks.map_values(|t: BTok| project(t))
}

pub open spec fn tok_at(toks: Seq<BTok>, pos: int) -> Option<BTok> {
    if 0 <= pos < toks.len() {
        Some(toks[pos])
    } else {
        None
    }
}

/// What parsing a piece of the boolean grammar yields.
pub enum BoolOutcome {
    Parsed(BooleanExpression, int),
    Failed(BErr),
}

pub open spec fn map_arith_err(e: ArithErr) -> BErr {
    match e {
        ArithErr::Malformed => BErr::Malformed,
        ArithErr::LiteralOverflow(t) => BErr::LiteralOverflow(t),
        ArithErr::UndefinedVariable(n) => BErr::UndefinedVariable(n),
        ArithErr::UnbalancedParentheses => BErr::UnbalancedParentheses,
        ArithErr::ExpressionTooDeep => BErr::ExpressionTooDeep,
    }
}

pub open spec fn comparison_of(t: Option<BTok>) -> Option<ComparisonOperator> {
    match t {
        Some(BTok::Equal) => Some(ComparisonOperator::Equal),
        Some(BTok::NotEqual) => Some(ComparisonOperator::NotEqual),
        Some(BTok::Less) => Some(ComparisonOperator::Less),
        Some(BTok::LessOrEqual) => Some(ComparisonOperator::LessOrEqual),
        Some(BTok::Greater) => Some(ComparisonOperator::Greater),
        Some(BTok::GreaterOrEqual) => Some(ComparisonOperator::GreaterOrEqual),
        _ => None,
    }
}

/// The index of the `)` matching the `(` scanning from `i` with `d` levels open.
pub open spec fn matching_paren(toks: Seq<BTok>, i: int, d: int) -> Option<int>
    decreases toks.len() - i,
{
    if i < 0 || i >= toks.len() {
        None
    } else {
        match toks[i] {
            BTok::LParen => matching_paren(toks, i + 1, d + 1),
            BTok::RParen => if d - 1 == 0 {
                Some(i)
            } else {
                matching_paren(toks, i + 1, d - 1)
            },
            _ => matching_paren(toks, i + 1, d),
        }
    }
}

/// Whether, from `i` (with `d` nested groups open), arithmetic continuation
/// tokens lead to a comparison operator at the outer level.
pub open spec fn continues_to_comparison(toks: Seq<BTok>, i: int, d: int) -> bool
    decreases toks.len() - i,
{
    if i < 0 || i >= toks.len() {
        false
    } else {
        match toks[i] {
            BTok::Equal | BTok::NotEqual | BTok::Less | BTok::LessOrEqual | BTok::Greater
            | BTok::GreaterOrEqual => if d == 0 {
                true
            } else {
                false
            },
            BTok::Plus | BTok::Minus | BTok::Star | BTok::Slash | BTok::Int(_) | BTok::Bool(_)
            | BTok::Ident(_) =>
                continues_to_comparison(toks, i + 1, d),
            BTok::LParen => continues_to_comparison(toks, i + 1, d + 1),
            BTok::RParen => if d == 0 {
                false
            } else {
                continues_to_comparison(toks, i + 1, d - 1)
            },
            _ => false,
        }
    }
}

/// Whether the `(` at `pos` opens the arithmetic left side of a comparison;
/// `None` when it is never closed.
pub open spec fn parens_open_arith(toks: Seq<BTok>, pos: int) -> Option<bool> {
    match matching_paren(toks, pos, 0) {
        Some(m) => Some(continues_to_comparison(toks, m + 1, 0)),
        None => None,
    }
}

pub open spec fn arith_at<R: VariableResolver>(toks: Seq<BTok>, pos: int, depth: int, r: R) -> ArithOutcome {
    arith_additive(projected(toks), pos, depth, r)
}

pub open spec fn bare_error(t: Option<BTok>, ctx: LogicalContext) -> BErr {
    match t {
        Some(BTok::And) => BErr::BareIntegerOperandOfLogical(LogicalKeyword::And),
        Some(BTok::Or) => BErr::BareIntegerOperandOfLogical(LogicalKeyword::Or),
        Some(BTok::RParen) | None => match ctx {
            LogicalContext::OperandOfNot => BErr::BareIntegerOperandOfNot,
            LogicalContext::RightOfAnd => BErr::BareIntegerOperandOfLogical(LogicalKeyword::And),
            LogicalContext::RightOfOr => BErr::BareIntegerOperandOfLogical(LogicalKeyword::Or),
            LogicalContext::OuterOrTop => BErr::BareIntegerAtTop,
        },
        _ => BErr::Malformed,
    }
}

pub open spec fn b_comparison<R: VariableResolver>(
    toks: Seq<BTok>,
    pos: int,
    depth: int,
    r: R,
    ctx: LogicalContext,
) -> BoolOutcome {
    match arith_at(toks, pos, depth, r) {
        ArithOutcome::Failed(e) => BoolOutcome::Failed(map_arith_err(e)),
        ArithOutcome::Parsed(left, p) => match comparison_of(tok_at(toks, p)) {
            Some(op) => match arith_at(toks, p + 1, depth, r) {
                ArithOutcome::Failed(e) => BoolOutcome::Failed(map_arith_err(e)),
                ArithOutcome::Parsed(right, p2) => BoolOutcome::Parsed(
                    BooleanExpression::Comparison(
                        RequirementStatement { left, operator: op, right },
                    ),
                    p2,
                ),
            },
            None => if is_flag_operand(left, r) {
                BoolOutcome::Parsed(BooleanExpression::Comparison(flag_is_set(left)), p)
            } else {
                BoolOutcome::Failed(bare_error(tok_at(toks, p), ctx))
            },
        },
    }
}

/// Whether a bare operand is a boolean flag variable, which stands for the
/// condition that the flag is set.
pub open spec fn is_flag_operand<R: VariableResolver>(e: Expression, r: R) -> bool {
    e matches Expression::Variable(id) && r.flags(id)
}

/// The comparison a bare flag operand stands for: `flag = true`.
pub open spec fn flag_is_set(e: Expression) -> RequirementStatement {
    RequirementStatement {
        left: e,
        operator: ComparisonOperator::Equal,
        right: Expression::Literal(Value::Boolean(true)),
    }
}

pub open spec fn b_or<R: VariableResolver>(toks: Seq<BTok>, pos: int, depth: int, r: R) -> BoolOutcome
    decreases toks.len() - pos, 6int,
{
    if tok_at(toks, pos) == Some(BTok::Or) {
        BoolOutcome::Failed(BErr::MissingLeftOperand(LogicalKeyword::Or))
    } else {
        match b_and(toks, pos, depth, r, LogicalContext::OuterOrTop) {
            BoolOutcome::Failed(e) => BoolOutcome::Failed(e),
            BoolOutcome::Parsed(left, p) => if pos < p <= toks.len() {
                b_or_rest(toks, p, depth, r, left)
            } else {
                BoolOutcome::Failed(BErr::Malformed)
            },
        }
    }
}

pub open spec fn b_or_rest<R: VariableResolver>(
    toks: Seq<BTok>,
    pos: int,
    depth: int,
    r: R,
    left: BooleanExpression,
) -> BoolOutcome
    decreases toks.len() - pos, 5int,
{
    if tok_at(toks, pos) == Some(BTok::Or) && 0 <= pos {
        if tok_at(toks, pos + 1) is None || tok_at(toks, pos + 1) == Some(BTok::RParen) {
            BoolOutcome::Failed(BErr::MissingRightOperand(LogicalKeyword::Or))
        } else {
            match b_and(toks, pos + 1, depth, r, LogicalContext::RightOfOr) {
                BoolOutcome::Failed(e) => BoolOutcome::Failed(e),
                BoolOutcome::Parsed(right, p) => if pos < p <= toks.len() {
                    b_or_rest(toks, p, depth, r, BooleanExpression::Or(Box::new(left), Box::new(right)))
                } else {
                    BoolOutcome::Failed(BErr::Malformed)
                },
            }
        }
    } else {
        BoolOutcome::Parsed(left, pos)
    }
}

pub open spec fn b_and<R: VariableResolver>(
    toks: Seq<BTok>,
    pos: int,
    depth: int,
    r: R,
    ctx: LogicalContext,
) -> BoolOutcome
    decreases toks.len() - pos, 4int,
{
    if tok_at(toks, pos) == Some(BTok::And) {
        BoolOutcome::Failed(BErr::MissingLeftOperand(LogicalKeyword::And))
    } else {
        match b_not(toks, pos, depth, r, ctx) {
            BoolOutcome::Failed(e) => BoolOutcome::Failed(e),
            BoolOutcome::Parsed(left, p) => if pos < p <= toks.len() {
                b_and_rest(toks, p, depth, r, left)
            } else {
                BoolOutcome::Failed(BErr::Malformed)
            },
        }
    }
}

pub open spec fn b_and_rest<R: VariableResolver>(
    toks: Seq<BTok>,
    pos: int,
    depth: int,
    r: R,
    left: BooleanExpression,
) -> BoolOutcome
    decreases toks.len() - pos, 3int,
{
    if tok_at(toks, pos) == Some(BTok::And) && 0 <= pos {
        if tok_at(toks, pos + 1) is None || tok_at(toks, pos + 1) == Some(BTok::RParen) {
            BoolOutcome::Failed(BErr::MissingRightOperand(LogicalKeyword::And))
        } else {
            match b_not(toks, pos + 1, depth, r, LogicalContext::RightOfAnd) {
                BoolOutcome::Failed(e) => BoolOutcome::Failed(e),
                BoolOutcome::Parsed(right, p) => if pos < p <= toks.len() {
                    b_and_rest(toks, p, depth, r, BooleanExpression::And(Box::new(left), Box::new(right)))
                } else {
                    BoolOutcome::Failed(BErr::Malformed)
                },
            }
        }
    } else {
        BoolOutcome::Parsed(left, pos)
    }
}

pub open spec fn b_not<R: VariableResolver>(
    toks: Seq<BTok>,
    pos: int,
    depth: int,
    r: R,
    ctx: LogicalContext,
) -> BoolOutcome
    decreases toks.len() - pos, 2int,
{
    if tok_at(toks, pos) == Some(BTok::Not) && 0 <= pos {
        if tok_at(toks, pos + 1) is None || tok_at(toks, pos + 1) == Some(BTok::RParen) {
            BoolOutcome::Failed(BErr::MissingNotOperand)
        } else if depth + 1 > MAX_EXPRESSION_DEPTH {
            BoolOutcome::Failed(BErr::ExpressionTooDeep)
        } else {
            match b_not(toks, pos + 1, depth + 1, r, LogicalContext::OperandOfNot) {
                BoolOutcome::Failed(e) => BoolOutcome::Failed(e),
                BoolOutcome::Parsed(inner, p) => BoolOutcome::Parsed(
                    BooleanExpression::Not(Box::new(inner)),
                    p,
                ),
            }
        }
    } else {
        b_primary(toks, pos, depth, r, ctx)
    }
}

pub open spec fn b_primary<R: VariableResolver>(
    toks: Seq<BTok>,
    pos: int,
    depth: int,
    r: R,
    ctx: LogicalContext,
) -> BoolOutcome
    decreases toks.len() - pos, 1int,
{
    if tok_at(toks, pos) == Some(BTok::LParen) && 0 <= pos {
        match parens_open_arith(toks, pos) {
            None => BoolOutcome::Failed(BErr::UnbalancedParentheses),
            Some(true) => b_comparison(toks, pos, depth, r, ctx),
            Some(false) => if depth + 1 > MAX_EXPRESSION_DEPTH {
                BoolOutcome::Failed(BErr::ExpressionTooDeep)
            } else {
                match b_or(toks, pos + 1, depth + 1, r) {
                    BoolOutcome::Failed(e) => BoolOutcome::Failed(e),
                    BoolOutcome::Parsed(inner, p) => if tok_at(toks, p) == Some(BTok::RParen) {
                        BoolOutcome::Parsed(inner, p + 1)
                    } else {
                        BoolOutcome::Failed(BErr::UnbalancedParentheses)
                    },
                }
            },
        }
    } else {
        b_comparison(toks, pos, depth, r, ctx)
    }
}

/// What parsing the whole text `s` as a `req` condition yields.
pub open spec fn boolean_outcome<R: VariableResolver>(s: Seq<char>, r: R) -> Result<BooleanExpression, BErr> {
    match lex_bool(s, 0) {
        Err(BLexErr::UnknownSymbol(sym)) => Err(BErr::UnknownSymbol(sym)),
        Err(BLexErr::LiteralOverflow(t)) => Err(BErr::LiteralOverflow(t)),
        Err(BLexErr::DoubleEquals) => Err(BErr::DoubleEquals),
        Ok(toks) => if toks.len() == 0 {
            Err(BErr::Malformed)
        } else {
            match b_or(toks, 0, 0, r) {
                BoolOutcome::Failed(e) => Err(e),
                BoolOutcome::Parsed(e, p) => if p == toks.len() {
                    Ok(e)
                } else if tok_at(toks, p) == Some(BTok::RParen) {
                    Err(BErr::UnbalancedParentheses)
                } else {
                    match tok_at(toks, p) {
                        Some(BTok::Ident(name)) => if r.resolves(name) is None {
                            Err(BErr::UndefinedVariable(name))
                        } else {
                            Err(BErr::Malformed)
                        },
                        _ => Err(BErr::Malformed),
                    }
                },
            }
        },
    }
}

/// Every comparison operand in `b` only mentions resolvable variables.
pub open spec fn bool_vars_ok<R: VariableResolver>(b: BooleanExpression, r: R) -> bool
    decreases b,
{
    match b {
        BooleanExpression::Comparison(s) => vars_ok(s.left, r) && vars_ok(s.right, r),
        BooleanExpression::And(x, y) => bool_vars_ok(*x, r) && bool_vars_ok(*y, r),
        BooleanExpression::Or(x, y) => bool_vars_ok(*x, r) && bool_vars_ok(*y, r),
        BooleanExpression::Not(x) => bool_vars_ok(*x, r),
    }
}

// ---------------------------------------------------------------------------
// Executable parser
// ---------------------------------------------------------------------------

/// The token stream and its arithmetic projection.
struct BooleanParser {
    tokens: Vec<Token>,
    arith: Vec<Option<ArithmeticToken>>,
}

impl BooleanParser {
    spec fn wf(&self) -> bool {
        &&& stream_view(self.arith@) == projected(btoks_view(self.tokens@))
        &&& self.tokens@.len() == self.arith@.len()
    }

    spec fn toks(&self) -> Seq<BTok> {
        btoks_view(self.tokens@)
    }
}

pub open spec fn bool_agrees<R: VariableResolver>(
    res: Result<(BooleanExpression, usize), BooleanParseError>,
    o: BoolOutcome,
    pos: int,
    len: int,
    r: R,
) -> bool {
    match res {
        Ok((e, p)) => o == BoolOutcome::Parsed(e, p as int) && pos < p <= len && bool_vars_ok(e, r),
        Err(err) => o == BoolOutcome::Failed(err@),
    }
}

fn map_arithmetic_error(error: ArithmeticError) -> (e: BooleanParseError)
    ensures
        e@ == map_arith_err(error@),
{
    match error {
        ArithmeticError::Malformed => BooleanParseError::Malformed,
        ArithmeticError::LiteralOverflow { literal } => BooleanParseError::LiteralOverflow { literal },
        ArithmeticError::UndefinedVariable { name } => BooleanParseError::UndefinedVariable { name },
        ArithmeticError::UnbalancedParentheses => BooleanParseError::UnbalancedParentheses,
        ArithmeticError::ExpressionTooDeep => BooleanParseError::ExpressionTooDeep,
    }
}

fn peek(p: &BooleanParser, pos: usize) -> (t: Option<&Token>)
    ensures
        match t {
            Some(x) => tok_at(p.toks(), pos as int) == Some(x@),
            None => tok_at(p.toks(), pos as int) is None,
        },
        p.tokens@.len() <= usize::MAX,
{
    if pos < p.tokens.len() {
        Some(&p.tokens[pos])
    } else {
        None
    }
}

fn is_kind_and(t: Option<&Token>) -> (b: bool)
    ensures
        b == (t matches Some(x) && x@ == BTok::And),
{
    match t {
        Some(Token::LogicalAnd) => true,
        _ => false,
    }
}

fn is_kind_or(t: Option<&Token>) -> (b: bool)
    ensures
        b == (t matches Some(x) && x@ == BTok::Or),
{
    match t {
        Some(Token::LogicalOr) => true,
        _ => false,
    }
}

fn is_none_or_rparen(t: Option<&Token>) -> (b: bool)
    ensures
        b == (t is None || (t matches Some(x) && x@ == BTok::RParen)),
{
    match t {
        None => true,
        Some(Token::RParen) => true,
        _ => false,
    }
}

fn parse_arith<R: VariableResolver>(p: &BooleanParser, pos: usize, depth: usize, resolver: &R) -> (res: Result<(Expression, usize), BooleanParseError>)
    requires
        p.wf(),
        depth <= MAX_EXPRESSION_DEPTH,
    ensures
        match arith_at(p.toks(), pos as int, depth as int, *resolver) {
            ArithOutcome::Parsed(e, q) => res matches Ok((e2, q2)) && e2 == e && q2 == q && pos < q <= p.tokens@.len() && vars_ok(e, *resolver),
            ArithOutcome::Failed(err) => res matches Err(e2) && e2@ == map_arith_err(err),
        },
{
    match parse_arithmetic_expression(&p.arith, pos, depth, resolver) {
        Ok(x) => Ok(x),
        Err(e) => Err(map_arithmetic_error(e)),
    }
}

fn parse_comparison<R: VariableResolver>(
    p: &BooleanParser,
    pos: usize,
    depth: usize,
    resolver: &R,
    ctx: LogicalContext,
) -> (res: Result<(BooleanExpression, usize), BooleanParseError>)
    requires
        p.wf(),
        depth <= MAX_EXPRESSION_DEPTH,
    ensures
        bool_agrees(res, b_comparison(p.toks(), pos as int, depth as int, *resolver, ctx), pos as int, p.tokens@.len() as int, *resolver),
{
    let (left, q) = match parse_arith(p, pos, depth, resolver) {
        Ok(x) => x,
        Err(e) => return Err(e),
    };
    let t = peek(p, q);
    let op = match t {
        Some(Token::Equal) => Some(ComparisonOperator::Equal),
        Some(Token::NotEqual) => Some(ComparisonOperator::NotEqual),
        Some(Token::Less) => Some(ComparisonOperator::Less),
        Some(Token::LessOrEqual) => Some(ComparisonOperator::LessOrEqual),
        Some(Token::Greater) => Some(ComparisonOperator::Greater),
        Some(Token::GreaterOrEqual) => Some(ComparisonOperator::GreaterOrEqual),
        _ => None,
    };
    match op {
        Some(operator) => {
            let (right, q2) = match parse_arith(p, q + 1, depth, resolver) {
                Ok(x) => x,
                Err(e) => return Err(e),
            };
            Ok((BooleanExpression::Comparison(RequirementStatement::new(left, operator, right)), q2))
        },
        None => {
            let flag = match &left {
                Expression::Variable(id) => resolver.is_flag(*id),
                _ => false,
            };
            if flag {
                let stmt = RequirementStatement::new(left, ComparisonOperator::Equal, Expression::Literal(Value::Boolean(true)));
                return Ok((BooleanExpression::Comparison(stmt), q));
            }
            let e = match t {
                Some(Token::LogicalAnd) => BooleanParseError::BareIntegerOperandOfLogical { operator: LogicalKeyword::And },
                Some(Token::LogicalOr) => BooleanParseError::BareIntegerOperandOfLogical { operator: LogicalKeyword::Or },
                Some(Token::RParen) | None => match ctx {
                    LogicalContext::OperandOfNot => BooleanParseError::BareIntegerOperandOfNot,
                    LogicalContext::RightOfAnd => BooleanParseError::BareIntegerOperandOfLogical { operator: LogicalKeyword::And },
                    LogicalContext::RightOfOr => BooleanParseError::BareIntegerOperandOfLogical { operator: LogicalKeyword::Or },
                    LogicalContext::OuterOrTop => BooleanParseError::BareIntegerAtTop,
                },
                _ => BooleanParseError::Malformed,
            };
            Err(e)
        },
    }
}

/// Scan from the `(` at `pos` to its matching `)` and decide whether it opens
/// an arithmetic left side of a comparison.
fn parens_open_arithmetic_lhs(p: &BooleanParser, pos: usize) -> (r: Result<bool, BooleanParseError>)
    requires
        p.wf(),
        tok_at(p.toks(), pos as int) == Some(BTok::LParen),
    ensures
        match parens_open_arith(p.toks(), pos as int) {
            Some(b) => r == Ok::<bool, BooleanParseError>(b),
            None => r matches Err(e) && e@ == BErr::UnbalancedParentheses,
        },
{
    let mut depth: usize = 0;
    let mut i = pos;
    while i < p.tokens.len()
        invariant
            p.wf(),
            pos <= i <= p.tokens@.len(),
            i == pos ==> p.tokens@[pos as int]@ == BTok::LParen,
            tok_at(p.toks(), pos as int) == Some(BTok::LParen),
            i == pos ==> depth == 0,
            i > pos ==> depth >= 1,
            depth <= i - pos,
            matching_paren(p.toks(), pos as int, 0) == matching_paren(p.toks(), i as int, depth as int),
        decreases p.tokens.len() - i,
    {
        match &p.tokens[i] {
            Token::LParen => {
                depth = depth + 1;
            },
            Token::RParen => {
                if depth == 1 {
                    assert(matching_paren(p.toks(), i as int, depth as int) == Some(i as int));
                    return Ok(is_arithmetic_continuation_then_comparison(p, i + 1));
                }
                if depth == 0 {
                    // Only reachable at `pos`, which holds a `(`.
                    assert(false);
                    return Err(BooleanParseError::UnbalancedParentheses);
                }
                depth = depth - 1;
            },
            _ => {},
        }
        i = i + 1;
    }
    Err(BooleanParseError::UnbalancedParentheses)
}

/// Walk forward through arithmetic continuation tokens and report whether a
/// comparison operator follows at the outer level.
fn is_arithmetic_continuation_then_comparison(p: &BooleanParser, start: usize) -> (b: bool)
    requires
        p.wf(),
    ensures
        b == continues_to_comparison(p.toks(), start as int, 0),
{
    let mut i = start;
    let mut depth: usize = 0;
    while i < p.tokens.len()
        invariant
            p.wf(),
            start <= i,
            depth <= i - start,
            continues_to_comparison(p.toks(), start as int, 0) == continues_to_comparison(p.toks(), i as int, depth as int),
        decreases p.tokens.len() - i,
    {
        match &p.tokens[i] {
            Token::Equal | Token::NotEqual | Token::Less | Token::LessOrEqual | Token::Greater | Token::GreaterOrEqual => {
                return depth == 0;
            },
            Token::Plus | Token::Minus | Token::Star | Token::Slash | Token::Int(_) | Token::Bool(_)
            | Token::Ident(_) => {},
            Token::LParen => {
                depth = depth + 1;
            },
            Token::RParen => {
                if depth == 0 {
                    return false;
                }
                depth = depth - 1;
            },
            _ => {
                return false;
            },
        }
        i = i + 1;
    }
    false
}

fn parse_primary<R: VariableResolver>(
    p: &BooleanParser,
    pos: usize,
    depth: usize,
    resolver: &R,
    ctx: LogicalContext,
) -> (res: Result<(BooleanExpression, usize), BooleanParseError>)
    requires
        p.wf(),
        depth <= MAX_EXPRESSION_DEPTH,
    ensures
        bool_agrees(res, b_primary(p.toks(), pos as int, depth as int, *resolver, ctx), pos as int, p.tokens@.len() as int, *resolver),
    decreases p.tokens@.len() - pos, 1int,
{
    match peek(p, pos) {
        Some(Token::LParen) => {
            let arith_lhs = match parens_open_arithmetic_lhs(p, pos) {
                Ok(b) => b,
                Err(e) => return Err(e),
            };
            if arith_lhs {
                return parse_comparison(p, pos, depth, resolver, ctx);
            }
            if depth + 1 > MAX_EXPRESSION_DEPTH {
                return Err(BooleanParseError::ExpressionTooDeep);
            }
            let (inner, q) = match parse_or(p, pos + 1, depth + 1, resolver) {
                Ok(x) => x,
                Err(e) => return Err(e),
            };
            match peek(p, q) {
                Some(Token::RParen) => Ok((inner, q + 1)),
                _ => Err(BooleanParseError::UnbalancedParentheses),
            }
        },
        _ => parse_comparison(p, pos, depth, resolver, ctx),
    }
}

fn parse_not<R: VariableResolver>(
    p: &BooleanParser,
    pos: usize,
    depth: usize,
    resolver: &R,
    ctx: LogicalContext,
) -> (res: Result<(BooleanExpression, usize), BooleanParseError>)
    requires
        p.wf(),
        depth <= MAX_EXPRESSION_DEPTH,
    ensures
        bool_agrees(res, b_not(p.toks(), pos as int, depth as int, *resolver, ctx), pos as int, p.tokens@.len() as int, *resolver),
    decreases p.tokens@.len() - pos, 2int,
{
    match peek(p, pos) {
        Some(Token::LogicalNot) => {
            if is_none_or_rparen(peek(p, pos + 1)) {
                return Err(BooleanParseError::MissingNotOperand);
            }
            if depth + 1 > MAX_EXPRESSION_DEPTH {
                return Err(BooleanParseError::ExpressionTooDeep);
            }
            let (inner, q) = match parse_not(p, pos + 1, depth + 1, resolver, LogicalContext::OperandOfNot) {
                Ok(x) => x,
                Err(e) => return Err(e),
            };
            Ok((BooleanExpression::Not(Box::new(inner)), q))
        },
        _ => parse_primary(p, pos, depth, resolver, ctx),
    }
}

fn parse_and<R: VariableResolver>(
    p: &BooleanParser,
    pos: usize,
    depth: usize,
    resolver: &R,
    ctx: LogicalContext,
) -> (res: Result<(BooleanExpression, usize), BooleanParseError>)
    requires
        p.wf(),
        depth <= MAX_EXPRESSION_DEPTH,
    ensures
        bool_agrees(res, b_and(p.toks(), pos as int, depth as int, *resolver, ctx), pos as int, p.tokens@.len() as int, *resolver),
    decreases p.tokens@.len() - pos, 4int,
{
    if is_kind_and(peek(p, pos)) {
        return Err(BooleanParseError::MissingLeftOperand { operator: LogicalKeyword::And });
    }
    let (mut left, mut q) = match parse_not(p, pos, depth, resolver, ctx) {
        Ok(x) => x,
        Err(e) => return Err(e),
    };
    loop
        invariant
            p.wf(),
            depth <= MAX_EXPRESSION_DEPTH,
            pos < q <= p.tokens@.len(),
            bool_vars_ok(left, *resolver),
            b_and(p.toks(), pos as int, depth as int, *resolver, ctx) == b_and_rest(p.toks(), q as int, depth as int, *resolver, left),
        decreases p.tokens@.len() - q,
    {
        if !is_kind_and(peek(p, q)) {
            return Ok((left, q));
        }
        if is_none_or_rparen(peek(p, q + 1)) {
            return Err(BooleanParseError::MissingRightOperand { operator: LogicalKeyword::And });
        }
        let (right, q2) = match parse_not(p, q + 1, depth, resolver, LogicalContext::RightOfAnd) {
            Ok(x) => x,
            Err(e) => return Err(e),
        };
        left = BooleanExpression::And(Box::new(left), Box::new(right));
        q = q2;
    }
}

fn parse_or<R: VariableResolver>(
    p: &BooleanParser,
    pos: usize,
    depth: usize,
    resolver: &R,
) -> (res: Result<(BooleanExpression, usize), BooleanParseError>)
    requires
        p.wf(),
        depth <= MAX_EXPRESSION_DEPTH,
    ensures
        bool_agrees(res, b_or(p.toks(), pos as int, depth as int, *resolver), pos as int, p.tokens@.len() as int, *resolver),
    decreases p.tokens@.len() - pos, 6int,
{
    if is_kind_or(peek(p, pos)) {
        return Err(BooleanParseError::MissingLeftOperand { operator: LogicalKeyword::Or });
    }
    let (mut left, mut q) = match parse_and(p, pos, depth, resolver, LogicalContext::OuterOrTop) {
        Ok(x) => x,
        Err(e) => return Err(e),
    };
    loop
        invariant
            p.wf(),
            depth <= MAX_EXPRESSION_DEPTH,
            pos < q <= p.tokens@.len(),
            bool_vars_ok(left, *resolver),
            b_or(p.toks(), pos as int, depth as int, *resolver) == b_or_rest(p.toks(), q as int, depth as int, *resolver, left),
        decreases p.tokens@.len() - q,
    {
        if !is_kind_or(peek(p, q)) {
            return Ok((left, q));
        }
        if is_none_or_rparen(peek(p, q + 1)) {
            return Err(BooleanParseError::MissingRightOperand { operator: LogicalKeyword::Or });
        }
        let (right, q2) = match parse_and(p, q + 1, depth, resolver, LogicalContext::RightOfOr) {
            Ok(x) => x,
            Err(e) => return Err(e),
        };
        left = BooleanExpression::Or(Box::new(left), Box::new(right));
        q = q2;
    }
}

fn project_token(t: &Token) -> (a: Option<ArithmeticToken>)
    ensures
        match a {
            Some(x) => project(t@) == Some(x@),
            None => project(t@) is None,
        },
{
    match t {
        Token::Int(n) => Some(ArithmeticToken::Int(*n)),
        Token::Bool(b) => Some(ArithmeticToken::Bool(*b)),
        Token::Ident(s) => Some(ArithmeticToken::Ident(s.clone())),
        Token::Plus => Some(ArithmeticToken::Plus),
        Token::Minus => Some(ArithmeticToken::Minus),
        Token::Star => Some(ArithmeticToken::Star),
        Token::Slash => Some(ArithmeticToken::Slash),
        Token::LParen => Some(ArithmeticToken::LParen),
        Token::RParen => Some(ArithmeticToken::RParen),
        _ => None,
    }
}

fn build_parser(tokens: Vec<Token>) -> (p: BooleanParser)
    ensures
        p.wf(),
        p.tokens@ == tokens@,
{
    let mut arith: Vec<Option<ArithmeticToken>> = Vec::new();
    let mut i: usize = 0;
    while i < tokens.len()
        invariant
            0 <= i <= tokens@.len(),
            arith@.len() == i,
            stream_view(arith@) == projected(btoks_view(tokens@)).take(i as int),
        decreases tokens.len() - i,
    {
        let a = project_token(&tokens[i]);
        let ghost before = arith@;
        arith.push(a);
        proof {
            assert(stream_view(arith@) =~= projected(btoks_view(tokens@)).take(i + 1));
        }
        i = i + 1;
    }
    assert(projected(btoks_view(tokens@)).take(i as int) =~= projected(btoks_view(tokens@)));
    BooleanParser { tokens, arith }
}

/// Parse `input` (the text after the `req` keyword) as a boolean condition,
/// resolving identifiers through `resolver`.
pub fn parse_boolean_expression<R: VariableResolver>(input: &str, resolver: &R) -> (r: Result<BooleanExpression, BooleanParseError>)
    ensures
        match boolean_outcome(input@, *resolver) {
            Ok(e) => r == Ok::<BooleanExpression, BooleanParseError>(e),
            Err(err) => r matches Err(e) && e@ == err,
        },
        r matches Ok(e) ==> bool_vars_ok(e, *resolver),
{
    let chars = chars_of(input);
    let tokens = match tokenize(chars.as_slice()) {
        Ok(t) => t,
        Err(TokenizeError::UnknownSymbol(symbol)) => return Err(BooleanParseError::UnknownSymbol { symbol }),
        Err(TokenizeError::LiteralOverflow(literal)) => return Err(BooleanParseError::LiteralOverflow { literal }),
        Err(TokenizeError::DoubleEquals) => return Err(BooleanParseError::DoubleEquals),
    };
    if tokens.len() == 0 {
        return Err(BooleanParseError::Malformed);
    }
    let p = build_parser(tokens);
    let (expression, q) = match parse_or(&p, 0, 0, resolver) {
        Ok(x) => x,
        Err(e) => return Err(e),
    };
    if q != p.tokens.len() {
        match peek(&p, q) {
            Some(Token::RParen) => {
                return Err(BooleanParseError::UnbalancedParentheses);
            },
            Some(Token::Ident(name)) => {
                if resolver.resolve(name.as_str()).is_none() {
                    return Err(BooleanParseError::UndefinedVariable { name: name.clone() });
                }
            },
            _ => {},
        }
        return Err(BooleanParseError::Malformed);
    }
    Ok(expression)
}

} // verus!
