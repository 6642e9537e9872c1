//! `req <variable> <operator> <expression>` statements: an integer variable
//! compared with an arithmetic expression. Names are resolved against the
//! database at parse time; the comparison itself is made at run time.
use vstd::prelude::*;

use crate::arithmetic::vars_ok;
use crate::database::{first_variable_named, lemma_first_variable_below, Database, Variable};
use crate::expression::{expression_outcome, parse_expression_chars, scan_ident, ident_run_end, ExprOutcome, ParseExpressionError, VariableResolver};
use crate::model::{vars_below, ComparisonOperator, Expression, Value, VariableId};
use crate::parsers::variables_parser::{valid_identifier, valid_identifier_chars};
use crate::text::{
    chars_eq, chars_of, has_prefix, is_alnum, is_ascii_alphanumeric, is_whitespace, is_ws, slice_chars,
    starts_with, string_from_chars, trim, trim_chars, trim_start, trim_start_chars,
};

verus! {

/// A parsed `req` line.
#[derive(Debug, PartialEq, Eq)]
pub struct ParsedReq {
    pub variable_id: VariableId,
    pub op: ComparisonOperator,
    pub expression: Expression,
}

/// Errors of parsing a `req` line.
#[derive(Debug, Clone, PartialEq, Eq)]
pub enum ReqParseError {
    /// The line does not begin with `req ` (and is not `req` alone).
    NotAReqStatement,
    /// The left side or the expression names a variable never declared.
    UndefinedVariable { name: String },
    /// The comparison or its expression is malformed; carries everything
    /// after `req `, trimmed.
    MalformedExpression { expression: String },
    /// The left side is not a valid identifier.
    InvalidLhs { name: String },
    /// There is no left side.
    MissingLhs,
    /// A symbol that is not a comparison operator follows the left side.
    UnknownOperator { op: String },
    /// The left side or a variable of the expression is not an integer.
    NonIntegerVariable { name: String },
}

/// What parsing a `req` line yields, as a mathematical value.
pub enum ReqOutcome {
    Parsed(VariableId, ComparisonOperator, Expression),
    NotAReq,
    Undefined(Seq<char>),
    Malformed(Seq<char>),
    InvalidLhs(Seq<char>),
    MissingLhs,
    UnknownOperator(Seq<char>),
    NonInteger(Seq<char>),
}

/// The comparison operator at the start of `s` and the text after it;
/// two-character operators are tried first.
pub open spec fn compare_op(s: Seq<char>) -> Option<(ComparisonOperator, Seq<char>)> {
    if has_prefix(s, ">="@) {
        Some((ComparisonOperator::GreaterOrEqual, s.skip(2)))
    } else if has_prefix(s, "<="@) {
        Some((ComparisonOperator::LessOrEqual, s.skip(2)))
    } else if has_prefix(s, "!="@) {
        Some((ComparisonOperator::NotEqual, s.skip(2)))
    } else if has_prefix(s, "="@) {
        Some((ComparisonOperator::Equal, s.skip(1)))
    } else if has_prefix(s, ">"@) {
        Some((ComparisonOperator::Greater, s.skip(1)))
    } else if has_prefix(s, "<"@) {
        Some((ComparisonOperator::Less, s.skip(1)))
    } else {
        None
    }
}

/// Characters that end an operator-shaped token.
pub open spec fn ends_symbol(c: char) -> bool {
    is_alnum(c) || c == '_' || is_ws(c) || c == '(' || c == ')'
}

/// The end of the operator-shaped run starting at `i`.
pub open spec fn symbol_end(s: Seq<char>, i: int) -> int
    decreases s.len() - i,
{
    if 0 <= i < s.len() && !ends_symbol(s[i]) {
        symbol_end(s, i + 1)
    } else {
        i
    }
}

/// The operator-shaped token at the start of `s`, if it starts with one.
pub open spec fn symbol_token(s: Seq<char>) -> Option<Seq<char>> {
    if s.len() == 0 || is_alnum(s[0]) || s[0] == '_' || is_ws(s[0]) {
        None
    } else {
        Some(s.take(symbol_end(s, 1)))
    }
}

/// The first variable of `e` (left to right) that does not hold an integer.
pub open spec fn first_non_int(e: Expression, vars: Seq<Variable>) -> Option<VariableId>
    decreases e,
{
    match e {
        Expression::Literal(_) => None,
        Expression::Variable(id) => if vars[id as int].default is Integer {
            None
        } else {
            Some(id)
        },
        Expression::Binary { left, right, .. } => match first_non_int(*left, vars) {
            Some(id) => Some(id),
            None => first_non_int(*right, vars),
        },
    }
}

/// What `req` parsing gives for `content` against `db`.
pub open spec fn req_outcome(content: Seq<char>, db: Database) -> ReqOutcome {
    if !has_prefix(content, "req "@) {
        if content == "req"@ {
            ReqOutcome::MissingLhs
        } else {
            ReqOutcome::NotAReq
        }
    } else {
        let payload = trim(content.skip(4));
        let e = ident_run_end(payload, 0);
        let lhs = payload.take(e);
        if payload.len() == 0 || lhs.len() == 0 {
            ReqOutcome::MissingLhs
        } else if !valid_identifier(lhs) {
            ReqOutcome::InvalidLhs(lhs)
        } else {
            match first_variable_named(db.variables@, lhs) {
                None => ReqOutcome::Undefined(lhs),
                Some(id) => if !(db.variables@[id as int].default is Integer) {
                    ReqOutcome::NonInteger(lhs)
                } else {
                    comparison_outcome(id, trim_start(payload.skip(e)), payload, db)
                },
            }
        }
    }
}

/// The operator and expression after the left side `id`; `payload` is what
/// a malformed comparison reports.
pub open spec fn comparison_outcome(id: VariableId, after: Seq<char>, payload: Seq<char>, db: Database) -> ReqOutcome {
    match compare_op(after) {
        None => match symbol_token(after) {
            Some(t) => ReqOutcome::UnknownOperator(t),
            None => ReqOutcome::Malformed(payload),
        },
        Some((op, rest)) => {
            let rhs = trim(rest);
            if rhs.len() == 0 {
                ReqOutcome::Malformed(payload)
            } else {
                match expression_outcome(rhs, db) {
                    ExprOutcome::Parsed(ex) => match first_non_int(ex, db.variables@) {
                        Some(v) => ReqOutcome::NonInteger(db.variables@[v as int].name@),
                        None => ReqOutcome::Parsed(id, op, ex),
                    },
                    ExprOutcome::UndefinedVariable(n) => ReqOutcome::Undefined(n),
                    _ => ReqOutcome::Malformed(payload),
                }
            }
        },
    }
}

/// Whether `r` is the outcome `o`.
pub open spec fn req_agrees(r: Result<ParsedReq, ReqParseError>, o: ReqOutcome) -> bool {
    match o {
        ReqOutcome::Parsed(id, op, ex) => r == Ok::<ParsedReq, ReqParseError>(
            ParsedReq { variable_id: id, op, expression: ex },
        ),
        ReqOutcome::NotAReq => r matches Err(ReqParseError::NotAReqStatement),
        ReqOutcome::Undefined(n) => r matches Err(ReqParseError::UndefinedVariable { name }) && name@ == n,
        ReqOutcome::Malformed(t) => r matches Err(ReqParseError::MalformedExpression { expression })
            && expression@ == t,
        ReqOutcome::InvalidLhs(n) => r matches Err(ReqParseError::InvalidLhs { name }) && name@ == n,
        ReqOutcome::MissingLhs => r matches Err(ReqParseError::MissingLhs),
        ReqOutcome::UnknownOperator(t) => r matches Err(ReqParseError::UnknownOperator { op }) && op@ == t,
        ReqOutcome::NonInteger(n) => r matches Err(ReqParseError::NonIntegerVariable { name }) && name@ == n,
    }
}

/// Parses `content` (indentation already stripped) as a `req` statement.
#[verifier::rlimit(40)]
#[verifier::spinoff_prover]
pub fn parse_req(content: &str, database: &Database) -> (r: Result<ParsedReq, ReqParseError>)
    ensures
        req_agrees(r, req_outcome(content@, *database)),
{
    proof {
        reveal_strlit("req ");
        reveal_strlit("req");
    }
    let c = chars_of(content);
    let kw = chars_of("req ");
    if !starts_with(c.as_slice(), kw.as_slice()) {
        let bare = chars_of("req");
        if chars_eq(c.as_slice(), bare.as_slice()) {
            return Err(ReqParseError::MissingLhs);
        }
        return Err(ReqParseError::NotAReqStatement);
    }
    let after_kw = slice_chars(c.as_slice(), 4, c.len());
    assert(after_kw@ =~= c@.skip(4));
    let payload = trim_chars(after_kw.as_slice());
    let e = scan_ident(payload.as_slice(), 0);
    let lhs = slice_chars(payload.as_slice(), 0, e);
    assert(lhs@ =~= payload@.take(e as int));
    if payload.len() == 0 || lhs.len() == 0 {
        return Err(ReqParseError::MissingLhs);
    }
    if !valid_identifier_chars(lhs.as_slice()) {
        return Err(ReqParseError::InvalidLhs { name: string_from_chars(lhs.as_slice()) });
    }
    let lhs_name = string_from_chars(lhs.as_slice());
    let _count = database.variables.len();
    proof {
        lemma_first_variable_below(database.variables@, lhs@);
    }
    let id = match database.variable_id(lhs_name.as_str()) {
        Some(id) => id,
        None => return Err(ReqParseError::UndefinedVariable { name: lhs_name }),
    };
    match &database.variables[id].default {
        Value::Integer(_) => {},
        _ => return Err(ReqParseError::NonIntegerVariable { name: lhs_name }),
    }
    let tail = slice_chars(payload.as_slice(), e, payload.len());
    assert(tail@ =~= payload@.skip(e as int));
    let after = trim_start_chars(tail.as_slice());
    parse_comparison(id, after.as_slice(), payload.as_slice(), database)
}

fn parse_comparison(id: VariableId, after: &[char], payload: &[char], database: &Database) -> (r: Result<ParsedReq, ReqParseError>)
    ensures
        req_agrees(r, comparison_outcome(id, after@, payload@, *database)),
{
    let (op, rest) = match compare_op_of(after) {
        Some(found) => found,
        None => {
            return match symbol_token_of(after) {
                Some(t) => Err(ReqParseError::UnknownOperator { op: string_from_chars(t.as_slice()) }),
                None => Err(ReqParseError::MalformedExpression { expression: string_from_chars(payload) }),
            };
        },
    };
    let rhs = trim_chars(rest.as_slice());
    if rhs.len() == 0 {
        return Err(ReqParseError::MalformedExpression { expression: string_from_chars(payload) });
    }
    let expression = match parse_expression_chars(rhs.as_slice(), database) {
        Ok(ex) => ex,
        Err(ParseExpressionError::UndefinedVariable { name }) => return Err(ReqParseError::UndefinedVariable { name }),
        Err(_) => return Err(ReqParseError::MalformedExpression { expression: string_from_chars(payload) }),
    };
    let _count = database.variables.len();
    proof {
        lemma_resolved_below(expression, *database);
    }
    match check_int_only(&expression, database) {
        Some(v) => Err(ReqParseError::NonIntegerVariable { name: database.variables[v].name.clone() }),
        None => Ok(ParsedReq { variable_id: id, op, expression }),
    }
}

/// Variables that the database resolves lie within it.
proof fn lemma_resolved_below(e: Expression, db: Database)
    requires
        vars_ok(e, db),
        db.variables@.len() <= usize::MAX,
    ensures
        vars_below(e, db.variables@.len()),
    decreases e,
{
    match e {
        Expression::Variable(id) => {
            let n = choose|n: Seq<char>| db.resolves(n) == Some(id);
            lemma_first_variable_below(db.variables@, n);
        },
        Expression::Binary { left, right, .. } => {
            lemma_resolved_below(*left, db);
            lemma_resolved_below(*right, db);
        },
        Expression::Literal(_) => {},
    }
}

/// The first variable of `expr` that does not hold an integer.
fn check_int_only(expr: &Expression, database: &Database) -> (r: Option<VariableId>)
    requires
        vars_below(*expr, database.variables@.len()),
    ensures
        r == first_non_int(*expr, database.variables@),
        r matches Some(v) ==> v < database.variables@.len(),
    decreases *expr,
{
    match expr {
        Expression::Literal(_) => None,
        Expression::Variable(id) => match &database.variables[*id].default {
            Value::Integer(_) => None,
            _ => Some(*id),
        },
        Expression::Binary { left, right, .. } => match check_int_only(left, database) {
            Some(v) => Some(v),
            None => check_int_only(right, database),
        },
    }
}

fn compare_op_of(s: &[char]) -> (r: Option<(ComparisonOperator, Vec<char>)>)
    ensures
        match compare_op(s@) {
            Some((op, rest)) => r matches Some((o, v)) && o == op && v@ == rest,
            None => r is None,
        },
{
    proof {
        reveal_strlit(">=");
        reveal_strlit("<=");
        reveal_strlit("!=");
        reveal_strlit("=");
        reveal_strlit(">");
        reveal_strlit("<");
    }
    let ge = chars_of(">=");
    let le = chars_of("<=");
    let ne = chars_of("!=");
    let eq = chars_of("=");
    let gt = chars_of(">");
    let lt = chars_of("<");
    let (op, n) = if starts_with(s, ge.as_slice()) {
        (ComparisonOperator::GreaterOrEqual, 2)
    } else if starts_with(s, le.as_slice()) {
        (ComparisonOperator::LessOrEqual, 2)
    } else if starts_with(s, ne.as_slice()) {
        (ComparisonOperator::NotEqual, 2)
    } else if starts_with(s, eq.as_slice()) {
        (ComparisonOperator::Equal, 1)
    } else if starts_with(s, gt.as_slice()) {
        (ComparisonOperator::Greater, 1)
    } else if starts_with(s, lt.as_slice()) {
        (ComparisonOperator::Less, 1)
    } else {
        return None;
    };
    let rest = slice_chars(s, n, s.len());
    assert(rest@ =~= s@.skip(n as int));
    Some((op, rest))
}

fn ends_symbol_char(c: char) -> (b: bool)
    ensures
        b == ends_symbol(c),
{
    is_ascii_alphanumeric(c) || c == '_' || is_whitespace(c) || c == '(' || c == ')'
}

fn symbol_token_of(s: &[char]) -> (r: Option<Vec<char>>)
    ensures
        match symbol_token(s@) {
            Some(t) => r matches Some(v) && v@ == t,
            None => r is None,
        },
{
    if s.len() == 0 || is_ascii_alphanumeric(s[0]) || s[0] == '_' || is_whitespace(s[0]) {
        return None;
    }
    let mut e: usize = 1;
    while e < s.len() && !ends_symbol_char(s[e])
        invariant
            1 <= e <= s@.len(),
            symbol_end(s@, 1) == symbol_end(s@, e as int),
        decreases s.len() - e,
    {
        e = e + 1;
    }
    let t = slice_chars(s, 0, e);
    assert(t@ =~= s@.take(e as int));
    Some(t)
}

} // verus!
