//! Parser for `set <var> <op> <expr>` statements.
//!
//! Resolves the target variable, parses the right-hand side (a string target
//! takes only a string literal or a string variable), infers its kind and
//! checks it against the target's kind.
use vstd::prelude::*;

use crate::arithmetic::vars_ok;
use crate::database::{first_variable_named, lemma_resolved_below, Database, Variable};
use crate::expression::{expression_outcome, parse_expression, ExprOutcome, ParseExpressionError};
use crate::keyword::{is_keyword_line, strip_keyword, strip_keyword_spec, StripOutcome, StripResult};
use crate::model::{
    value_text, vars_below, AssignmentOperator, Expression, Value, ValueKind, VariableId,
};
use crate::parsers::type_inference::{infer, infer_type, TypeInferenceError};
use crate::parsers::variables_parser::{is_valid_identifier, valid_identifier};
use crate::string_literal::{literal_result_matches, parse_string_literal, scan_body, LiteralScan, StringLiteralError};
use crate::text::{chars_of, push_all, slice_chars, string_from_chars, trim, trim_chars};

verus! {

/// Result of parsing a `set` line.
#[derive(Debug, PartialEq)]
pub struct ParsedSet {
    pub variable_id: VariableId,
    pub operator: AssignmentOperator,
    pub expression: Expression,
}

/// Errors specific to parsing a `set` statement.
#[derive(Debug, Clone, PartialEq, Eq)]
pub enum SetParseError {
    /// The target or the right-hand side referenced an undeclared variable.
    UndefinedVariable { name: String },
    /// The right-hand side is not well formed; carries it.
    MalformedExpression { expression: String },
    /// The target is not a valid identifier.
    InvalidLhs { name: String },
    /// No target (e.g. `set = 5`).
    MissingLhs,
    /// No assignment operator.
    MissingAssignment,
    /// No right-hand side (e.g. `set x = `).
    MissingRhs,
    /// The right-hand side's kind differs from the target's.
    TypeMismatch { variable: String, expected: ValueKind, found: ValueKind },
    /// A compound assignment, or arithmetic, on a non-numeric kind.
    NonNumericAssignment { variable: String, kind: ValueKind },
    /// A literal exceeded the integer range.
    LiteralOverflow { literal: String },
    /// A string target got a non-string value; names the offending leaf.
    StringTypeMismatch { variable: String, found_token: String, found: ValueKind },
    /// A string literal was never closed.
    UnterminatedStringLiteral,
    /// A string literal held an unsupported escape.
    InvalidStringEscape { sequence: String },
    /// A compound assignment on a kind that does not support it (string).
    CompoundAssignmentUnsupported { operator: AssignmentOperator, kind: ValueKind },
}

/// The mathematical content of a [`SetParseError`].
pub enum SetErr {
    UndefinedVariable(Seq<char>),
    MalformedExpression(Seq<char>),
    InvalidLhs(Seq<char>),
    MissingLhs,
    MissingAssignment,
    MissingRhs,
    TypeMismatch(Seq<char>, ValueKind, ValueKind),
    NonNumericAssignment(Seq<char>, ValueKind),
    LiteralOverflow(Seq<char>),
    StringTypeMismatch(Seq<char>, Seq<char>, ValueKind),
    UnterminatedStringLiteral,
    InvalidStringEscape(Seq<char>),
    CompoundAssignmentUnsupported(AssignmentOperator, ValueKind),
}

impl View for SetParseError {
    type V = SetErr;

    open spec fn view(&self) -> SetErr {
        match self {
            SetParseError::UndefinedVariable { name } => SetErr::UndefinedVariable(name@),
            SetParseError::MalformedExpression { expression } => SetErr::MalformedExpression(expression@),
            SetParseError::InvalidLhs { name } => SetErr::InvalidLhs(name@),
            SetParseError::MissingLhs => SetErr::MissingLhs,
            SetParseError::MissingAssignment => SetErr::MissingAssignment,
            SetParseError::MissingRhs => SetErr::MissingRhs,
            SetParseError::TypeMismatch { variable, expected, found } => SetErr::TypeMismatch(variable@, *expected, *found),
            SetParseError::NonNumericAssignment { variable, kind } => SetErr::NonNumericAssignment(variable@, *kind),
            SetParseError::LiteralOverflow { literal } => SetErr::LiteralOverflow(literal@),
            SetParseError::StringTypeMismatch { variable, found_token, found } => SetErr::StringTypeMismatch(variable@, found_token@, *found),
            SetParseError::UnterminatedStringLiteral => SetErr::UnterminatedStringLiteral,
            SetParseError::InvalidStringEscape { sequence } => SetErr::InvalidStringEscape(sequence@),
            SetParseError::CompoundAssignmentUnsupported { operator, kind } => SetErr::CompoundAssignmentUnsupported(*operator, *kind),
        }
    }
}

impl AssignmentOperator {
    pub open spec fn is_compound_spec(self) -> bool {
        self != AssignmentOperator::Assign
    }

    /// Whether this is `+=`, `-=`, `*=` or `/=`.
    pub fn is_compound(self) -> (b: bool)
        ensures
            b == self.is_compound_spec(),
    {
        match self {
            AssignmentOperator::Assign => false,
            _ => true,
        }
    }
}

/// The compound operator spelled `c=`.
pub open spec fn compound_of(c: char) -> Option<AssignmentOperator> {
    if c == '+' {
        Some(AssignmentOperator::AddAssign)
    } else if c == '-' {
        Some(AssignmentOperator::SubtractAssign)
    } else if c == '*' {
        Some(AssignmentOperator::MultiplyAssign)
    } else if c == '/' {
        Some(AssignmentOperator::DivideAssign)
    } else {
        None
    }
}

/// Split at the first assignment operator at or after `i`: a compound
/// operator (`+=` and so on) or a plain `=`, whichever comes first.
pub open spec fn split_assignment(s: Seq<char>, i: int) -> Option<(Seq<char>, AssignmentOperator, Seq<char>)>
    decreases s.len() - i,
{
    if i < 0 || i >= s.len() {
        None
    } else if compound_of(s[i]) is Some && i + 1 < s.len() && s[i + 1] == '=' {
        Some((s.take(i), compound_of(s[i])->0, s.skip(i + 2)))
    } else if s[i] == '=' {
        Some((s.take(i), AssignmentOperator::Assign, s.skip(i + 1)))
    } else {
        split_assignment(s, i + 1)
    }
}

/// The first leaf of `e` whose kind is not `String`: a literal is named
/// quoted, a variable by its name.
pub open spec fn first_non_string_leaf_spec(e: Expression, vars: Seq<Variable>) -> Option<(Seq<char>, ValueKind)>
    decreases e,
{
    match e {
        Expression::Literal(v) => if v.kind_spec() != ValueKind::String {
            Some((seq!['\''] + value_text(v) + seq!['\''], v.kind_spec()))
        } else {
            None
        },
        Expression::Variable(id) => if vars[id as int].default.kind_spec() == ValueKind::String {
            None
        } else {
            Some((vars[id as int].name@, vars[id as int].default.kind_spec()))
        },
        Expression::Binary { left, right, .. } => match first_non_string_leaf_spec(*left, vars) {
            Some(x) => Some(x),
            None => first_non_string_leaf_spec(*right, vars),
        },
    }
}

/// What the right-hand side `rhs` of a `set` on the string variable `lhs` yields.
pub open spec fn string_rhs_outcome(rhs: Seq<char>, lhs: Seq<char>, db: Database) -> Result<Expression, SetErr> {
    if rhs.len() > 0 && rhs[0] == '"' {
        match scan_body(rhs.drop_first(), seq![]) {
            LiteralScan::Closed(value, rest) => if trim(rest).len() == 0 {
                Ok(Expression::Literal(Value::String(arbitrary_string_with(value))))
            } else {
                Err(SetErr::MalformedExpression(rhs))
            },
            LiteralScan::Unterminated => Err(SetErr::UnterminatedStringLiteral),
            LiteralScan::InvalidEscape(seq) => Err(SetErr::InvalidStringEscape(seq)),
        }
    } else if valid_identifier(rhs) {
        match first_variable_named(db.variables@, rhs) {
            None => Err(SetErr::UndefinedVariable(rhs)),
            Some(id) => {
                let kind = db.variables@[id as int].default.kind_spec();
                if kind == ValueKind::String {
                    Ok(Expression::Variable(id))
                } else {
                    Err(SetErr::StringTypeMismatch(lhs, rhs, kind))
                }
            },
        }
    } else {
        match expression_outcome(rhs, db) {
            ExprOutcome::Parsed(e) => match first_non_string_leaf_spec(e, db.variables@) {
                Some((tok, kind)) => Err(SetErr::StringTypeMismatch(lhs, tok, kind)),
                None => Err(SetErr::MalformedExpression(rhs)),
            },
            _ => Err(SetErr::MalformedExpression(rhs)),
        }
    }
}

/// A string whose text is `s` (string literals are compared by their text).
pub open spec fn arbitrary_string_with(s: Seq<char>) -> String {
    choose|x: String| x@ == s
}

/// Whether an executable expression agrees with a spec one, comparing
/// string literals by their text.
pub open spec fn same_expression(a: Expression, b: Expression) -> bool {
    match (a, b) {
        (Expression::Literal(Value::String(x)), Expression::Literal(Value::String(y))) => x@ == y@,
        _ => a == b,
    }
}

/// What parsing the `set` line `content` yields.
pub open spec fn set_outcome(content: Seq<char>, db: Database) -> Result<(VariableId, AssignmentOperator, Expression), SetErr> {
    match strip_keyword_spec(content, "set"@) {
        StripOutcome::Stripped(rest) => match split_assignment(rest, 0) {
            None => Err(SetErr::MissingAssignment),
            Some((lhs_raw, operator, rhs_raw)) => {
                let lhs = trim(lhs_raw);
                let rhs = trim(rhs_raw);
                if lhs.len() == 0 {
                    Err(SetErr::MissingLhs)
                } else if !valid_identifier(lhs) {
                    Err(SetErr::InvalidLhs(lhs))
                } else {
                    match first_variable_named(db.variables@, lhs) {
                        None => Err(SetErr::UndefinedVariable(lhs)),
                        Some(id) => if rhs.len() == 0 {
                            Err(SetErr::MissingRhs)
                        } else {
                            let lhs_kind = db.variables@[id as int].default.kind_spec();
                            if lhs_kind == ValueKind::String {
                                if operator.is_compound_spec() {
                                    Err(SetErr::CompoundAssignmentUnsupported(operator, lhs_kind))
                                } else {
                                    match string_rhs_outcome(rhs, lhs, db) {
                                        Ok(e) => Ok((id, operator, e)),
                                        Err(e) => Err(e),
                                    }
                                }
                            } else {
                                match expression_outcome(rhs, db) {
                                    ExprOutcome::UndefinedVariable(n) => Err(SetErr::UndefinedVariable(n)),
                                    ExprOutcome::Overflow(t) => Err(SetErr::LiteralOverflow(t)),
                                    ExprOutcome::Malformed => Err(SetErr::MalformedExpression(rhs)),
                                    ExprOutcome::Parsed(e) => match infer(e, db.variables@) {
                                        Err(TypeInferenceError::Mismatch { left, right, .. }) =>
                                            Err(SetErr::TypeMismatch(lhs, left, right)),
                                        Err(TypeInferenceError::NonNumericArithmetic { kind, .. }) =>
                                            Err(SetErr::NonNumericAssignment(lhs, kind)),
                                        Ok(rhs_kind) => if lhs_kind != rhs_kind {
                                            Err(SetErr::TypeMismatch(lhs, lhs_kind, rhs_kind))
                                        } else if operator.is_compound_spec() && !lhs_kind.is_numeric_spec() {
                                            Err(SetErr::NonNumericAssignment(lhs, lhs_kind))
                                        } else {
                                            Ok((id, operator, e))
                                        },
                                    },
                                }
                            }
                        },
                    }
                }
            },
        },
        _ => Err(SetErr::MissingLhs),
    }
}

/// Locate the assignment operator and split into `(lhs, op, rhs)`.
fn split_lhs_op_rhs(rest: &[char]) -> (r: Result<(Vec<char>, AssignmentOperator, Vec<char>), SetParseError>)
    ensures
        match split_assignment(rest@, 0) {
            None => r matches Err(SetParseError::MissingAssignment),
            Some((l, op, rh)) => r matches Ok((l2, op2, rh2)) && l2@ == l && op2 == op && rh2@ == rh,
        },
{
    let mut i: usize = 0;
    while i < rest.len()
        invariant
            0 <= i <= rest@.len(),
            split_assignment(rest@, 0) == split_assignment(rest@, i as int),
        decreases rest.len() - i,
    {
        let c = rest[i];
        let compound = if c == '+' {
            Some(AssignmentOperator::AddAssign)
        } else if c == '-' {
            Some(AssignmentOperator::SubtractAssign)
        } else if c == '*' {
            Some(AssignmentOperator::MultiplyAssign)
        } else if c == '/' {
            Some(AssignmentOperator::DivideAssign)
        } else {
            None
        };
        match compound {
            Some(operator) => {
                if i + 1 < rest.len() && rest[i + 1] == '=' {
                    let lhs = slice_chars(rest, 0, i);
                    let rhs = slice_chars(rest, i + 2, rest.len());
                    assert(lhs@ =~= rest@.take(i as int));
                    assert(rhs@ =~= rest@.skip(i + 2));
                    return Ok((lhs, operator, rhs));
                }
            },
            None => {
                if c == '=' {
                    let lhs = slice_chars(rest, 0, i);
                    let rhs = slice_chars(rest, i + 1, rest.len());
                    assert(lhs@ =~= rest@.take(i as int));
                    assert(rhs@ =~= rest@.skip(i + 1));
                    return Ok((lhs, AssignmentOperator::Assign, rhs));
                }
            },
        }
        i = i + 1;
    }
    Err(SetParseError::MissingAssignment)
}

fn first_non_string_leaf(expression: &Expression, database: &Database) -> (r: Option<(String, ValueKind)>)
    requires
        vars_below(*expression, database.variables@.len()),
    ensures
        match first_non_string_leaf_spec(*expression, database.variables@) {
            None => r is None,
            Some((t, k)) => r matches Some((t2, k2)) && t2@ == t && k2 == k,
        },
    decreases expression,
{
    match expression {
        Expression::Literal(value) => {
            let kind = value.kind();
            if kind != ValueKind::String {
                let mut text: Vec<char> = Vec::new();
                text.push('\'');
                let v = chars_of(value.to_text().as_str());
                push_all(&mut text, v.as_slice());
                text.push('\'');
                assert(text@ =~= seq!['\''] + value_text(*value) + seq!['\'']);
                Some((string_from_chars(text.as_slice()), kind))
            } else {
                None
            }
        },
        Expression::Variable(id) => {
            let variable = &database.variables[*id];
            let kind = variable.kind();
            if kind == ValueKind::String {
                None
            } else {
                Some((variable.name.clone(), kind))
            }
        },
        Expression::Binary { left, right, .. } => match first_non_string_leaf(left, database) {
            Some(x) => Some(x),
            None => first_non_string_leaf(right, database),
        },
    }
}

/// Parse the right-hand side of a `set` whose target is a string variable:
/// one double-quoted literal, or the name of another string variable.
fn parse_string_rhs(rhs: &[char], lhs: &[char], database: &Database) -> (r: Result<Expression, SetParseError>)
    ensures
        match string_rhs_outcome(rhs@, lhs@, *database) {
            Ok(e) => r matches Ok(e2) && same_expression(e2, e),
            Err(e) => r matches Err(x) && x@ == e,
        },
{
    let rhs_text = string_from_chars(rhs);
    if rhs.len() > 0 && rhs[0] == '"' {
        return match parse_string_literal(rhs_text.as_str()) {
            Ok(value) => Ok(Expression::Literal(Value::String(value))),
            Err(StringLiteralError::Unterminated) => Err(SetParseError::UnterminatedStringLiteral),
            Err(StringLiteralError::InvalidEscape { sequence }) => Err(SetParseError::InvalidStringEscape { sequence }),
            Err(StringLiteralError::TrailingCharacters) => Err(SetParseError::MalformedExpression { expression: rhs_text }),
        };
    }
    if is_valid_identifier(rhs_text.as_str()) {
        return match database.variable_id(rhs_text.as_str()) {
            None => Err(SetParseError::UndefinedVariable { name: rhs_text }),
            Some(id) => {
                let _n = database.variables.len();
                proof {
                    crate::database::lemma_first_variable_below(database.variables@, rhs@);
                }
                let kind = database.variables[id].kind();
                if kind == ValueKind::String {
                    Ok(Expression::Variable(id))
                } else {
                    Err(SetParseError::StringTypeMismatch { variable: string_from_chars(lhs), found_token: rhs_text, found: kind })
                }
            },
        };
    }
    match parse_expression(rhs_text.as_str(), database) {
        Ok(expression) => {
            let n = database.variables.len();
            proof {
                lemma_resolved_below(expression, *database);
            }
            match first_non_string_leaf(&expression, database) {
                Some((found_token, found)) => Err(SetParseError::StringTypeMismatch { variable: string_from_chars(lhs), found_token, found }),
                None => Err(SetParseError::MalformedExpression { expression: rhs_text }),
            }
        },
        Err(_) => Err(SetParseError::MalformedExpression { expression: rhs_text }),
    }
}

/// Parse `content` (indentation already stripped) as a `set` statement.
/// The caller has checked it with [`is_set_line`].
#[verifier::rlimit(30)]
pub fn parse_set(content: &str, database: &Database) -> (r: Result<ParsedSet, SetParseError>)
    requires
        is_keyword_line(content@, "set"@),
    ensures
        match set_outcome(content@, *database) {
            Ok((id, op, e)) => r matches Ok(p) && p.variable_id == id && p.operator == op && same_expression(p.expression, e),
            Err(e) => r matches Err(x) && x@ == e,
        },
{
    let chars = chars_of(content);
    let keyword = chars_of("set");
    let rest = match strip_keyword(chars.as_slice(), keyword.as_slice()) {
        StripResult::Stripped(rest) => rest,
        _ => return Err(SetParseError::MissingLhs),
    };
    let (lhs_raw, operator, rhs_raw) = match split_lhs_op_rhs(rest.as_slice()) {
        Ok(x) => x,
        Err(e) => return Err(e),
    };
    let lhs = trim_chars(lhs_raw.as_slice());
    let rhs = trim_chars(rhs_raw.as_slice());
    if lhs.len() == 0 {
        return Err(SetParseError::MissingLhs);
    }
    let lhs_text = string_from_chars(lhs.as_slice());
    if !is_valid_identifier(lhs_text.as_str()) {
        return Err(SetParseError::InvalidLhs { name: lhs_text });
    }
    let variable_id = match database.variable_id(lhs_text.as_str()) {
        Some(id) => id,
        None => return Err(SetParseError::UndefinedVariable { name: lhs_text }),
    };
    if rhs.len() == 0 {
        return Err(SetParseError::MissingRhs);
    }
    let _n = database.variables.len();
    proof {
        crate::database::lemma_first_variable_below(database.variables@, lhs@);
    }
    let lhs_kind = database.variables[variable_id].kind();
    if lhs_kind == ValueKind::String {
        if operator.is_compound() {
            return Err(SetParseError::CompoundAssignmentUnsupported { operator, kind: lhs_kind });
        }
        let expression = match parse_string_rhs(rhs.as_slice(), lhs.as_slice(), database) {
            Ok(e) => e,
            Err(e) => return Err(e),
        };
        return Ok(ParsedSet { variable_id, operator, expression });
    }
    let rhs_text = string_from_chars(rhs.as_slice());
    let expression = match parse_expression(rhs_text.as_str(), database) {
        Ok(e) => e,
        Err(ParseExpressionError::UndefinedVariable { name }) => return Err(SetParseError::UndefinedVariable { name }),
        Err(ParseExpressionError::Overflow { literal }) => return Err(SetParseError::LiteralOverflow { literal }),
        Err(ParseExpressionError::Malformed) => return Err(SetParseError::MalformedExpression { expression: rhs_text }),
    };
    let n = database.variables.len();
    proof {
        lemma_resolved_below(expression, *database);
    }
    let rhs_kind = match infer_type(&expression, database) {
        Ok(k) => k,
        Err(TypeInferenceError::Mismatch { left, right, .. }) => {
            return Err(SetParseError::TypeMismatch { variable: lhs_text, expected: left, found: right });
        },
        Err(TypeInferenceError::NonNumericArithmetic { kind, .. }) => {
            return Err(SetParseError::NonNumericAssignment { variable: lhs_text, kind });
        },
    };
    if lhs_kind != rhs_kind {
        return Err(SetParseError::TypeMismatch { variable: lhs_text, expected: lhs_kind, found: rhs_kind });
    }
    if operator.is_compound() && !lhs_kind.is_numeric() {
        return Err(SetParseError::NonNumericAssignment { variable: lhs_text, kind: lhs_kind });
    }
    Ok(ParsedSet { variable_id, operator, expression })
}

/// Does `content` (already trimmed of indentation) begin with the `set`
/// keyword followed by ASCII whitespace, or consist of it alone?
pub fn is_set_line(content: &str) -> (b: bool)
    ensures
        b == is_keyword_line(content@, "set"@),
{
    let chars = chars_of(content);
    let keyword = chars_of("set");
    match strip_keyword(chars.as_slice(), keyword.as_slice()) {
        StripResult::NotKeyword => false,
        _ => true,
    }
}

} // verus!
