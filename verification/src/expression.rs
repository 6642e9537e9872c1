//! Expression parser for single-expression contexts (the `set` right-hand
//! side, and variable defaults).
//!
//! Tokenizes the text into the arithmetic alphabet, then runs the shared
//! grammar of [`crate::arithmetic`], resolving identifiers through the given
//! resolver. The whole input must form one expression.
use vstd::prelude::*;

pub use crate::arithmetic::VariableResolver;
use crate::arithmetic::{
    vars_ok, stream_view, arith_additive, lemma_additive_congruent, same_resolution, parse_arithmetic_expression, ArithErr, ArithOutcome, ArithTok,
    ArithmeticError, ArithmeticToken, MAX_EXPRESSION_DEPTH,
};
use crate::model::Expression;
use crate::text::{
    chars_eq, chars_of, is_alnum, is_alpha, is_ascii_alphabetic, is_ascii_alphanumeric,
    is_ascii_digit, is_digit, is_whitespace, is_ws, slice_chars, string_from_chars,
};

verus! {

/// Errors produced while parsing or resolving an expression.
#[derive(Debug, Clone, PartialEq, Eq)]
pub enum ParseExpressionError {
    /// Tokenization failed or the grammar did not accept the input.
    Malformed,
    /// An identifier was not found by the resolver.
    UndefinedVariable { name: String },
    /// A literal exceeded the `i64` range; carries its text with any sign.
    Overflow { literal: String },
}

// ---------------------------------------------------------------------------
// Lexical structure
// ---------------------------------------------------------------------------

/// Lexing failures.
pub enum LexErr {
    Malformed,
    LiteralOverflow(Seq<char>),
}

/// The end of the run of digits starting at `i`.
pub open spec fn digit_run_end(s: Seq<char>, i: int) -> int
    decreases s.len() - i,
{
    if 0 <= i < s.len() && is_digit(s[i]) {
        digit_run_end(s, i + 1)
    } else {
        i
    }
}

/// The end of the run of identifier characters starting at `i`.
pub open spec fn ident_run_end(s: Seq<char>, i: int) -> int
    decreases s.len() - i,
{
    if 0 <= i < s.len() && (is_alnum(s[i]) || s[i] == '_') {
        ident_run_end(s, i + 1)
    } else {
        i
    }
}

/// The value of a string of decimal digits.
pub open spec fn digits_value(d: Seq<char>) -> nat
    decreases d.len(),
{
    if d.len() == 0 {
        0
    } else {
        digits_value(d.drop_last()) * 10 + ((d.last() as u32) - ('0' as u32)) as nat
    }
}

/// The token a word denotes: the boolean literals, or an identifier.
pub open spec fn word_token(w: Seq<char>) -> ArithTok {
    if w == "true"@ {
        ArithTok::Bool(true)
    } else if w == "false"@ {
        ArithTok::Bool(false)
    } else {
        ArithTok::Ident(w)
    }
}

/// `t` followed by the tokens of `r`.
pub open spec fn cons_tok(t: ArithTok, r: Result<Seq<ArithTok>, LexErr>) -> Result<Seq<ArithTok>, LexErr> {
    match r {
        Ok(ts) => Ok(seq![t] + ts),
        Err(e) => Err(e),
    }
}

/// The tokens of `pre` followed by those of `r`.
pub open spec fn append_toks(pre: Seq<ArithTok>, r: Result<Seq<ArithTok>, LexErr>) -> Result<Seq<ArithTok>, LexErr> {
    match r {
        Ok(ts) => Ok(pre + ts),
        Err(e) => Err(e),
    }
}

/// The tokens of `s` from index `i` on. Whitespace separates tokens;
/// operators and parentheses are single characters; integer literals are
/// maximal digit runs (an error beyond `u64`); words are maximal runs of
/// letters, digits and `_` starting with a letter or `_`; anything else is
/// malformed.
pub open spec fn lex_expr(s: Seq<char>, i: int) -> Result<Seq<ArithTok>, LexErr>
    decreases s.len() - i,
{
    if i < 0 || i >= s.len() {
        Ok(seq![])
    } else {
        let c = s[i];
        if is_ws(c) {
            lex_expr(s, i + 1)
        } else if c == '+' {
            cons_tok(ArithTok::Plus, lex_expr(s, i + 1))
        } else if c == '-' {
            cons_tok(ArithTok::Minus, lex_expr(s, i + 1))
        } else if c == '*' {
            cons_tok(ArithTok::Star, lex_expr(s, i + 1))
        } else if c == '/' {
            cons_tok(ArithTok::Slash, lex_expr(s, i + 1))
        } else if c == '(' {
            cons_tok(ArithTok::LParen, lex_expr(s, i + 1))
        } else if c == ')' {
            cons_tok(ArithTok::RParen, lex_expr(s, i + 1))
        } else if is_digit(c) {
            let e = digit_run_end(s, i);
            if i < e <= s.len() {
                let v = digits_value(s.subrange(i, e));
                if v > u64::MAX {
                    Err(LexErr::LiteralOverflow(s.subrange(i, e)))
                } else {
                    cons_tok(ArithTok::Int(v as u64), lex_expr(s, e))
                }
            } else {
                Err(LexErr::Malformed)
            }
        } else if is_alpha(c) || c == '_' {
            let e = ident_run_end(s, i);
            if i < e <= s.len() {
                cons_tok(word_token(s.subrange(i, e)), lex_expr(s, e))
            } else {
                Err(LexErr::Malformed)
            }
        } else {
            Err(LexErr::Malformed)
        }
    }
}

pub proof fn lemma_digit_run_end(s: Seq<char>, i: int)
    requires
        0 <= i <= s.len(),
    ensures
        i <= digit_run_end(s, i) <= s.len(),
        forall|j: int| i <= j < digit_run_end(s, i) ==> is_digit(#[trigger] s[j]),
        digit_run_end(s, i) < s.len() ==> !is_digit(s[digit_run_end(s, i)]),
    decreases s.len() - i,
{
    if i < s.len() && is_digit(s[i]) {
        lemma_digit_run_end(s, i + 1);
    }
}

pub proof fn lemma_ident_run_end(s: Seq<char>, i: int)
    requires
        0 <= i <= s.len(),
    ensures
        i <= ident_run_end(s, i) <= s.len(),
        forall|j: int| i <= j < ident_run_end(s, i) ==> (is_alnum(#[trigger] s[j]) || s[j] == '_'),
        ident_run_end(s, i) < s.len() ==> !(is_alnum(s[ident_run_end(s, i)]) || s[ident_run_end(
            s,
            i,
        )] == '_'),
    decreases s.len() - i,
{
    if i < s.len() && (is_alnum(s[i]) || s[i] == '_') {
        lemma_ident_run_end(s, i + 1);
    }
}

/// Finds the end of the digit run at `i`.
pub(crate) fn scan_digits(s: &[char], i: usize) -> (e: usize)
    requires
        i <= s@.len(),
    ensures
        e == digit_run_end(s@, i as int),
        i <= e <= s@.len(),
{
    let mut e = i;
    while e < s.len() && is_ascii_digit(s[e])
        invariant
            i <= e <= s@.len(),
            digit_run_end(s@, i as int) == digit_run_end(s@, e as int),
        decreases s.len() - e,
    {
        e = e + 1;
    }
    e
}

/// Finds the end of the identifier run at `i`.
pub(crate) fn scan_ident(s: &[char], i: usize) -> (e: usize)
    requires
        i <= s@.len(),
    ensures
        e == ident_run_end(s@, i as int),
        i <= e <= s@.len(),
{
    let mut e = i;
    while e < s.len() && (is_ascii_alphanumeric(s[e]) || s[e] == '_')
        invariant
            i <= e <= s@.len(),
            ident_run_end(s@, i as int) == ident_run_end(s@, e as int),
        decreases s.len() - e,
    {
        e = e + 1;
    }
    e
}

/// The value of the digit string `s[i..e]`, or `None` when it exceeds `u64`.
pub(crate) fn digits_to_u64(s: &[char], i: usize, e: usize) -> (r: Option<u64>)
    requires
        i <= e <= s@.len(),
        forall|j: int| i <= j < e ==> is_digit(#[trigger] s@[j]),
    ensures
        match r {
            Some(v) => v == digits_value(s@.subrange(i as int, e as int)),
            None => digits_value(s@.subrange(i as int, e as int)) > u64::MAX,
        },
{
    let mut value: u64 = 0;
    let mut k = i;
    while k < e
        invariant
            i <= k <= e <= s@.len(),
            forall|j: int| i <= j < e ==> is_digit(#[trigger] s@[j]),
            value == digits_value(s@.subrange(i as int, k as int)),
        decreases e - k,
    {
        assert(s@.subrange(i as int, k + 1).drop_last() =~= s@.subrange(i as int, k as int));
        let d = (s[k] as u32 - '0' as u32) as u64;
        assert(is_digit(s@[k as int]));
        match value.checked_mul(10) {
            None => {
                proof {
                    lemma_digits_value_grows(s@.subrange(i as int, e as int), (k + 1 - i) as int);
                    assert(s@.subrange(i as int, e as int).take((k + 1 - i) as int) =~= s@.subrange(i as int, k + 1));
                }
                return None;
            },
            Some(m) => match m.checked_add(d) {
                None => {
                    proof {
                        lemma_digits_value_grows(s@.subrange(i as int, e as int), (k + 1 - i) as int);
                        assert(s@.subrange(i as int, e as int).take((k + 1 - i) as int) =~= s@.subrange(i as int, k + 1));
                    }
                    return None;
                },
                Some(v) => {
                    value = v;
                },
            },
        }
        k = k + 1;
    }
    Some(value)
}

/// Extending a digit string never lowers its value.
pub proof fn lemma_digits_value_grows(d: Seq<char>, n: int)
    requires
        0 <= n <= d.len(),
        forall|j: int| 0 <= j < d.len() ==> is_digit(#[trigger] d[j]),
    ensures
        digits_value(d.take(n)) <= digits_value(d),
    decreases d.len() - n,
{
    if n < d.len() {
        lemma_digits_value_grows(d, n + 1);
        assert(d.take(n + 1).drop_last() =~= d.take(n));
    } else {
        assert(d.take(n) =~= d);
    }
}

pub proof fn lemma_stream_push(toks: Seq<Option<ArithmeticToken>>, t: ArithmeticToken, seen: Seq<ArithTok>)
    requires
        stream_view(toks) == all_arith(seen),
    ensures
        stream_view(toks.push(Some(t))) == all_arith(seen.push(t@)),
{
    assert(stream_view(toks).len() == toks.len());
    assert(all_arith(seen).len() == seen.len());
    assert forall|i: int| 0 <= i < toks.len() implies #[trigger] stream_view(toks.push(Some(t)))[i] == all_arith(seen.push(t@))[i] by {
        assert(stream_view(toks)[i] == all_arith(seen)[i]);
    }
    assert(stream_view(toks.push(Some(t))) =~= all_arith(seen.push(t@)));
}

pub proof fn lemma_append_cons(pre: Seq<ArithTok>, t: ArithTok, r: Result<Seq<ArithTok>, LexErr>)
    ensures
        append_toks(pre, cons_tok(t, r)) == append_toks(pre.push(t), r),
{
    if let Ok(ts) = r {
        assert(pre + (seq![t] + ts) =~= pre.push(t) + ts);
    }
}

/// Why tokenizing failed.
#[derive(Debug, Clone, PartialEq, Eq)]
enum TokenizeError {
    Malformed,
    LiteralOverflow(String),
}

/// Tokenize `input` into the arithmetic alphabet, as a stream for the
/// shared grammar (every token belongs to the arithmetic sublanguage).
fn tokenize(input: &[char]) -> (r: Result<Vec<Option<ArithmeticToken>>, TokenizeError>)
    ensures
        match lex_expr(input@, 0) {
            Ok(ts) => r matches Ok(toks) && stream_view(toks@) == all_arith(ts),
            Err(LexErr::Malformed) => r matches Err(TokenizeError::Malformed),
            Err(LexErr::LiteralOverflow(text)) => r matches Err(TokenizeError::LiteralOverflow(t)) && t@ == text,
        },
{
    let mut tokens: Vec<Option<ArithmeticToken>> = Vec::new();
    let mut i: usize = 0;
    let ghost mut seen: Seq<ArithTok> = seq![];
    let true_word = chars_of("true");
    let false_word = chars_of("false");
    while i < input.len()
        invariant
            0 <= i <= input@.len(),
            true_word@ == "true"@,
            false_word@ == "false"@,
            lex_expr(input@, 0) == append_toks(seen, lex_expr(input@, i as int)),
            stream_view(tokens@) == all_arith(seen),
        decreases input.len() - i,
    {
        let c = input[i];
        let ghost before = seen;
        if is_whitespace(c) {
            i = i + 1;
            continue;
        }
        let single = if c == '+' {
            Some(ArithmeticToken::Plus)
        } else if c == '-' {
            Some(ArithmeticToken::Minus)
        } else if c == '*' {
            Some(ArithmeticToken::Star)
        } else if c == '/' {
            Some(ArithmeticToken::Slash)
        } else if c == '(' {
            Some(ArithmeticToken::LParen)
        } else if c == ')' {
            Some(ArithmeticToken::RParen)
        } else {
            None
        };
        match single {
            Some(t) => {
                let ghost tv = t@;
                proof {
                    lemma_stream_push(tokens@, t, before);
                }
                tokens.push(Some(t));
                proof {
                    seen = before.push(tv);
                    lemma_append_cons(before, tv, lex_expr(input@, i + 1));
                }
                i = i + 1;
            },
            None => {
                if is_ascii_digit(c) {
                    let e = scan_digits(input, i);
                    proof {
                        lemma_digit_run_end(input@, i as int);
                    }
                    match digits_to_u64(input, i, e) {
                        None => {
                            let text = slice_chars(input, i, e);
                            return Err(TokenizeError::LiteralOverflow(string_from_chars(text.as_slice())));
                        },
                        Some(v) => {
                            let t = ArithmeticToken::Int(v);
                            proof {
                                lemma_stream_push(tokens@, t, before);
                            }
                            tokens.push(Some(t));
                            proof {
                                seen = before.push(ArithTok::Int(v));
                                lemma_append_cons(before, ArithTok::Int(v), lex_expr(input@, e as int));
                            }
                            i = e;
                        },
                    }
                } else if is_ascii_alphabetic(c) || c == '_' {
                    let e = scan_ident(input, i);
                    proof {
                        lemma_ident_run_end(input@, i as int);
                    }
                    let word = slice_chars(input, i, e);
                    let t = if chars_eq(word.as_slice(), true_word.as_slice()) {
                        ArithmeticToken::Bool(true)
                    } else if chars_eq(word.as_slice(), false_word.as_slice()) {
                        ArithmeticToken::Bool(false)
                    } else {
                        ArithmeticToken::Ident(string_from_chars(word.as_slice()))
                    };
                    let ghost tv = t@;
                    assert(tv == word_token(input@.subrange(i as int, e as int)));
                    proof {
                        lemma_stream_push(tokens@, t, before);
                    }
                    tokens.push(Some(t));
                    proof {
                        seen = before.push(tv);
                        lemma_append_cons(before, tv, lex_expr(input@, e as int));
                    }
                    i = e;
                } else {
                    return Err(TokenizeError::Malformed);
                }
            },
        }
    }
    assert(seen + seq![] =~= seen);
    Ok(tokens)
}

// ---------------------------------------------------------------------------
// Parsing
// ---------------------------------------------------------------------------

/// The outcome the expression parser gives for `s`, as a mathematical value.
pub enum ExprOutcome {
    Parsed(Expression),
    Malformed,
    UndefinedVariable(Seq<char>),
    Overflow(Seq<char>),
}

/// Every token as part of the arithmetic stream.
pub open spec fn all_arith(ts: Seq<ArithTok>) -> Seq<Option<ArithTok>> {
    ts.map_values(|t: ArithTok| Some(t))
}

/// What parsing `s` as one expression yields.
pub open spec fn expression_outcome<R: VariableResolver>(s: Seq<char>, r: R) -> ExprOutcome {
    match lex_expr(s, 0) {
        Err(LexErr::Malformed) => ExprOutcome::Malformed,
        Err(LexErr::LiteralOverflow(text)) => ExprOutcome::Overflow(text),
        Ok(ts) => if ts.len() == 0 {
            ExprOutcome::Malformed
        } else {
            match arith_additive(all_arith(ts), 0, 0, r) {
                ArithOutcome::Parsed(e, p) => if p == ts.len() {
                    ExprOutcome::Parsed(e)
                } else {
                    ExprOutcome::Malformed
                },
                ArithOutcome::Failed(ArithErr::LiteralOverflow(text)) => ExprOutcome::Overflow(text),
                ArithOutcome::Failed(ArithErr::UndefinedVariable(name)) => ExprOutcome::UndefinedVariable(name),
                ArithOutcome::Failed(_) => ExprOutcome::Malformed,
            }
        },
    }
}

/// Resolvers that agree on every name give the same outcome.
pub proof fn lemma_outcome_congruent<R1: VariableResolver, R2: VariableResolver>(s: Seq<char>, r1: R1, r2: R2)
    requires
        same_resolution(r1, r2),
    ensures
        expression_outcome(s, r1) == expression_outcome(s, r2),
{
    if let Ok(ts) = lex_expr(s, 0) {
        lemma_additive_congruent(all_arith(ts), 0, 0, r1, r2);
    }
}

/// Whether an executable result agrees with an expression outcome.
pub open spec fn expression_agrees(r: Result<Expression, ParseExpressionError>, o: ExprOutcome) -> bool {
    match o {
        ExprOutcome::Parsed(e) => r == Ok::<Expression, ParseExpressionError>(e),
        ExprOutcome::Malformed => r matches Err(ParseExpressionError::Malformed),
        ExprOutcome::UndefinedVariable(n) => r matches Err(ParseExpressionError::UndefinedVariable { name }) && name@ == n,
        ExprOutcome::Overflow(t) => r matches Err(ParseExpressionError::Overflow { literal }) && literal@ == t,
    }
}

/// Parse `input` as one arithmetic expression, resolving every identifier
/// through `resolver`.
pub fn parse_expression<R: VariableResolver>(input: &str, resolver: &R) -> (r: Result<Expression, ParseExpressionError>)
    ensures
        expression_agrees(r, expression_outcome(input@, *resolver)),
        r matches Ok(e) ==> vars_ok(e, *resolver),
{
    let chars = chars_of(input);
    parse_expression_chars(chars.as_slice(), resolver)
}

/// [`parse_expression`] on text held as characters.
pub fn parse_expression_chars<R: VariableResolver>(input: &[char], resolver: &R) -> (r: Result<Expression, ParseExpressionError>)
    ensures
        expression_agrees(r, expression_outcome(input@, *resolver)),
        r matches Ok(e) ==> vars_ok(e, *resolver),
{
    let stream = match tokenize(input) {
        Ok(t) => t,
        Err(TokenizeError::Malformed) => return Err(ParseExpressionError::Malformed),
        Err(TokenizeError::LiteralOverflow(literal)) => return Err(ParseExpressionError::Overflow { literal }),
    };
    if stream.len() == 0 {
        return Err(ParseExpressionError::Malformed);
    }
    match parse_arithmetic_expression(&stream, 0, 0, resolver) {
        Ok((expression, p)) => {
            if p != stream.len() {
                return Err(ParseExpressionError::Malformed);
            }
            Ok(expression)
        },
        Err(ArithmeticError::LiteralOverflow { literal }) => Err(ParseExpressionError::Overflow { literal }),
        Err(ArithmeticError::UndefinedVariable { name }) => Err(ParseExpressionError::UndefinedVariable { name }),
        Err(_) => Err(ParseExpressionError::Malformed),
    }
}


/// Whether `s` is a non-empty run of ASCII digits.
pub open spec fn all_digits(s: Seq<char>) -> bool {
    s.len() > 0 && forall|i: int| 0 <= i < s.len() ==> is_digit(#[trigger] s[i])
}

/// The integer `str::parse::<i64>` reads from `s`: an optional `+` or `-`,
/// then one or more ASCII digits, within the `i64` range.
pub open spec fn i64_text_value(s: Seq<char>) -> Option<i64> {
    if s.len() > 0 && (s[0] == '+' || s[0] == '-') {
        let digits = s.drop_first();
        let v: int = if s[0] == '-' {
            -(digits_value(digits) as int)
        } else {
            digits_value(digits) as int
        };
        if all_digits(digits) && i64::MIN <= v <= i64::MAX {
            Some(v as i64)
        } else {
            None
        }
    } else if all_digits(s) && digits_value(s) <= i64::MAX {
        Some(digits_value(s) as i64)
    } else {
        None
    }
}

/// Reads a decimal `i64` as `str::parse::<i64>` does.
pub fn parse_i64(s: &[char]) -> (r: Option<i64>)
    ensures
        r == i64_text_value(s@),
{
    let signed = s.len() > 0 && (s[0] == '+' || s[0] == '-');
    let start: usize = if signed { 1 } else { 0 };
    if start >= s.len() {
        return None;
    }
    let mut k = start;
    while k < s.len()
        invariant
            start <= k <= s@.len(),
            start == (if signed { 1usize } else { 0usize }),
            signed == (s@.len() > 0 && (s@[0] == '+' || s@[0] == '-')),
            forall|j: int| start <= j < k ==> is_digit(#[trigger] s@[j]),
        decreases s.len() - k,
    {
        if !is_ascii_digit(s[k]) {
            proof {
                if signed {
                    let d = s@.drop_first();
                    assert(d[(k as int) - 1] == s@[k as int]);
                    assert(!is_digit(d[(k as int) - 1]));
                    assert(!all_digits(d));
                } else {
                    assert(!is_digit(s@[k as int]));
                    assert(!all_digits(s@));
                }
            }
            return None;
        }
        k = k + 1;
    }
    let digits = slice_chars(s, start, s.len());
    proof {
        if signed {
            assert(digits@ =~= s@.drop_first());
        } else {
            assert(digits@ =~= s@);
        }
        assert(all_digits(digits@));
    }
    match digits_to_u64(s, start, s.len()) {
        None => {
            assert(s@.subrange(start as int, s@.len() as int) =~= digits@);
            None
        },
        Some(v) => {
            assert(s@.subrange(start as int, s@.len() as int) =~= digits@);
            if signed && s[0] == '-' {
                if v <= 9223372036854775807u64 {
                    Some(-(v as i64))
                } else if v == 9223372036854775808u64 {
                    Some(i64::MIN)
                } else {
                    None
                }
            } else if v <= 9223372036854775807u64 {
                Some(v as i64)
            } else {
                None
            }
        },
    }
}

} // verus!
