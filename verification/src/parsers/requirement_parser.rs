//! Parser for `req <boolean-expression>` statements.
//!
//! Strips the leading `req` keyword, parses the condition with
//! [`crate::boolean_expression`], then checks every comparison leaf: both
//! operands must infer to the same kind, and ordering operators need an
//! ordered kind.
use vstd::prelude::*;

use crate::boolean_expression::{
    bool_vars_ok, boolean_outcome, parse_boolean_expression, BErr, BooleanParseError,
    LogicalKeyword,
};
use crate::database::{lemma_resolved_below, Database, Variable};
use crate::keyword::{is_keyword_line, strip_keyword, strip_keyword_spec, StripOutcome, StripResult};
use crate::model::{
    value_text, vars_below, BooleanExpression, ComparisonOperator, Expression, RequirementStatement,
    ValueKind,
};
use crate::parsers::type_inference::{infer, infer_type, TypeInferenceError};
use crate::text::{chars_of, string_from_chars, trim, trim_chars};

verus! {

/// Result of parsing a `req` line.
#[derive(Debug, PartialEq)]
pub struct ParsedRequirement {
    pub expression: BooleanExpression,
}

/// Errors specific to parsing a `req` statement.
#[derive(Debug, Clone, PartialEq, Eq)]
pub enum RequirementParseError {
    /// `req` followed by no condition.
    MissingCondition,
    /// An operand referenced an undeclared variable.
    UndefinedVariable { name: String },
    /// Generic structural failure; carries the condition text.
    MalformedExpression { expression: String },
    /// A symbol outside the grammar.
    UnknownSymbol { symbol: String },
    /// An arithmetic operand's two sides inferred to different kinds.
    TypeMismatch { left: ValueKind, right: ValueKind },
    /// A comparison pairs operands of different kinds; carries each
    /// operand's source token and kind.
    ComparisonTypeMismatch {
        left_kind: ValueKind,
        left_token: String,
        right_kind: ValueKind,
        right_token: String,
    },
    /// An ordering operator was applied to a non-ordered kind.
    NonOrderedComparison { operator: ComparisonOperator, kind: ValueKind },
    /// Arithmetic on a non-numeric kind.
    NonNumericArithmetic { kind: ValueKind },
    /// `and`/`or` had a bare arithmetic operand.
    LogicalBareIntegerOperand { operator: LogicalKeyword },
    /// `not` had a bare arithmetic operand.
    LogicalBareIntegerOperandOfNot,
    /// `and`/`or` had no left operand; carries the condition text.
    LogicalMissingLeftOperand { operator: LogicalKeyword, source: String },
    /// `and`/`or` had no right operand; carries the condition text.
    LogicalMissingRightOperand { operator: LogicalKeyword, source: String },
    /// `not` had no operand; carries the condition text.
    LogicalMissingNotOperand { source: String },
    /// Unbalanced parentheses; carries the condition text.
    LogicalUnbalancedParentheses { source: String },
    /// A literal exceeded the integer range.
    LiteralOverflow { literal: String },
    /// The condition nested too deeply.
    ExpressionTooDeep,
    /// `==` was written where equality is a single `=`.
    DoubleEquals,
}

/// The mathematical content of a [`RequirementParseError`].
pub enum ReqErr {
    MissingCondition,
    UndefinedVariable(Seq<char>),
    MalformedExpression(Seq<char>),
    UnknownSymbol(Seq<char>),
    TypeMismatch(ValueKind, ValueKind),
    ComparisonTypeMismatch(ValueKind, Seq<char>, ValueKind, Seq<char>),
    NonOrderedComparison(ComparisonOperator, ValueKind),
    NonNumericArithmetic(ValueKind),
    LogicalBareIntegerOperand(LogicalKeyword),
    LogicalBareIntegerOperandOfNot,
    LogicalMissingLeftOperand(LogicalKeyword, Seq<char>),
    LogicalMissingRightOperand(LogicalKeyword, Seq<char>),
    LogicalMissingNotOperand(Seq<char>),
    LogicalUnbalancedParentheses(Seq<char>),
    LiteralOverflow(Seq<char>),
    ExpressionTooDeep,
    DoubleEquals,
}

impl View for RequirementParseError {
    type V = ReqErr;

    open spec fn view(&self) -> ReqErr {
        match self {
            RequirementParseError::MissingCondition => ReqErr::MissingCondition,
            RequirementParseError::UndefinedVariable { name } => ReqErr::UndefinedVariable(name@),
            RequirementParseError::MalformedExpression { expression } => ReqErr::MalformedExpression(expression@),
            RequirementParseError::UnknownSymbol { symbol } => ReqErr::UnknownSymbol(symbol@),
            RequirementParseError::TypeMismatch { left, right } => ReqErr::TypeMismatch(*left, *right),
            RequirementParseError::ComparisonTypeMismatch { left_kind, left_token, right_kind, right_token } =>
                ReqErr::ComparisonTypeMismatch(*left_kind, left_token@, *right_kind, right_token@),
            RequirementParseError::NonOrderedComparison { operator, kind } => ReqErr::NonOrderedComparison(*operator, *kind),
            RequirementParseError::NonNumericArithmetic { kind } => ReqErr::NonNumericArithmetic(*kind),
            RequirementParseError::LogicalBareIntegerOperand { operator } => ReqErr::LogicalBareIntegerOperand(*operator),
            RequirementParseError::LogicalBareIntegerOperandOfNot => ReqErr::LogicalBareIntegerOperandOfNot,
            RequirementParseError::LogicalMissingLeftOperand { operator, source } => ReqErr::LogicalMissingLeftOperand(*operator, source@),
            RequirementParseError::LogicalMissingRightOperand { operator, source } => ReqErr::LogicalMissingRightOperand(*operator, source@),
            RequirementParseError::LogicalMissingNotOperand { source } => ReqErr::LogicalMissingNotOperand(source@),
            RequirementParseError::LogicalUnbalancedParentheses { source } => ReqErr::LogicalUnbalancedParentheses(source@),
            RequirementParseError::LiteralOverflow { literal } => ReqErr::LiteralOverflow(literal@),
            RequirementParseError::ExpressionTooDeep => ReqErr::ExpressionTooDeep,
            RequirementParseError::DoubleEquals => ReqErr::DoubleEquals,
        }
    }
}

/// How a boolean-parser error surfaces for the condition text `source`.
pub open spec fn map_boolean_err(e: BErr, source: Seq<char>) -> ReqErr {
    match e {
        BErr::BareIntegerOperandOfLogical(op) => ReqErr::LogicalBareIntegerOperand(op),
        BErr::BareIntegerOperandOfNot => ReqErr::LogicalBareIntegerOperandOfNot,
        BErr::BareIntegerAtTop => ReqErr::MalformedExpression(source),
        BErr::MissingLeftOperand(op) => ReqErr::LogicalMissingLeftOperand(op, source),
        BErr::MissingRightOperand(op) => ReqErr::LogicalMissingRightOperand(op, source),
        BErr::MissingNotOperand => ReqErr::LogicalMissingNotOperand(source),
        BErr::UnbalancedParentheses => ReqErr::LogicalUnbalancedParentheses(source),
        BErr::UndefinedVariable(n) => ReqErr::UndefinedVariable(n),
        BErr::UnknownSymbol(s) => ReqErr::UnknownSymbol(s),
        BErr::LiteralOverflow(t) => ReqErr::LiteralOverflow(t),
        BErr::ExpressionTooDeep => ReqErr::ExpressionTooDeep,
        BErr::DoubleEquals => ReqErr::DoubleEquals,
        BErr::Malformed => ReqErr::MalformedExpression(source),
    }
}

/// The source token an operand reads as: a variable's name, a literal's
/// text, or the word `expression` for compound arithmetic.
pub open spec fn operand_text(e: Expression, vars: Seq<Variable>) -> Seq<char> {
    match e {
        Expression::Variable(id) => vars[id as int].name@,
        Expression::Literal(v) => value_text(v),
        Expression::Binary { .. } => "expression"@,
    }
}

/// How a type-inference failure surfaces.
pub open spec fn map_inference_err(e: TypeInferenceError) -> ReqErr {
    match e {
        TypeInferenceError::Mismatch { left, right, .. } => ReqErr::TypeMismatch(left, right),
        TypeInferenceError::NonNumericArithmetic { kind, .. } => ReqErr::NonNumericArithmetic(kind),
    }
}

/// The first problem with one comparison, if any.
pub open spec fn comparison_problem(s: RequirementStatement, vars: Seq<Variable>) -> Option<ReqErr> {
    match infer(s.left, vars) {
        Err(e) => Some(map_inference_err(e)),
        Ok(l) => match infer(s.right, vars) {
            Err(e) => Some(map_inference_err(e)),
            Ok(r) => if l != r {
                Some(ReqErr::ComparisonTypeMismatch(l, operand_text(s.left, vars), r, operand_text(s.right, vars)))
            } else if s.operator.requires_ordering_spec() && !l.is_ordered_spec() {
                Some(ReqErr::NonOrderedComparison(s.operator, l))
            } else {
                None
            },
        },
    }
}

/// The first problem among the comparisons of `b`, left to right.
pub open spec fn condition_problem(b: BooleanExpression, vars: Seq<Variable>) -> Option<ReqErr>
    decreases b,
{
    match b {
        BooleanExpression::Comparison(s) => comparison_problem(s, vars),
        BooleanExpression::And(x, y) => match condition_problem(*x, vars) {
            Some(e) => Some(e),
            None => condition_problem(*y, vars),
        },
        BooleanExpression::Or(x, y) => match condition_problem(*x, vars) {
            Some(e) => Some(e),
            None => condition_problem(*y, vars),
        },
        BooleanExpression::Not(x) => condition_problem(*x, vars),
    }
}

/// Whether every comparison of `b`, at any depth (under `and`, `or` and
/// `not`), has operands that infer to one kind, an ordered kind when the
/// operator orders.
pub open spec fn comparisons_typed(b: BooleanExpression, vars: Seq<Variable>) -> bool
    decreases b,
{
    match b {
        BooleanExpression::Comparison(s) => match (infer(s.left, vars), infer(s.right, vars)) {
            (Ok(l), Ok(r)) => l == r && (s.operator.requires_ordering_spec() ==> l.is_ordered_spec()),
            _ => false,
        },
        BooleanExpression::And(x, y) => comparisons_typed(*x, vars) && comparisons_typed(*y, vars),
        BooleanExpression::Or(x, y) => comparisons_typed(*x, vars) && comparisons_typed(*y, vars),
        BooleanExpression::Not(x) => comparisons_typed(*x, vars),
    }
}

/// A condition is accepted only when all its comparisons are well typed:
/// no problem found means every comparison, under `not` too, compares
/// operands of one kind (ordered when the operator orders), and a
/// condition with an ill-typed comparison anywhere has a problem.
pub proof fn lemma_condition_typed(b: BooleanExpression, vars: Seq<Variable>)
    ensures
        condition_problem(b, vars) is None <==> comparisons_typed(b, vars),
    decreases b,
{
    match b {
        BooleanExpression::Comparison(_) => {},
        BooleanExpression::And(x, y) => {
            lemma_condition_typed(*x, vars);
            lemma_condition_typed(*y, vars);
        },
        BooleanExpression::Or(x, y) => {
            lemma_condition_typed(*x, vars);
            lemma_condition_typed(*y, vars);
        },
        BooleanExpression::Not(x) => {
            lemma_condition_typed(*x, vars);
        },
    }
}

/// Every requirement that parses has well-typed comparisons, at any depth.
pub proof fn lemma_requirement_typed(content: Seq<char>, db: Database, b: BooleanExpression)
    requires
        requirement_outcome(content, db) == Ok::<BooleanExpression, ReqErr>(b),
    ensures
        comparisons_typed(b, db.variables@),
{
    lemma_condition_typed(b, db.variables@);
}

/// What parsing the `req` line `content` yields.
pub open spec fn requirement_outcome(content: Seq<char>, db: Database) -> Result<BooleanExpression, ReqErr> {
    match strip_keyword_spec(content, "req"@) {
        StripOutcome::Stripped(rest) => {
            let payload = trim(rest);
            if payload.len() == 0 {
                Err(ReqErr::MissingCondition)
            } else {
                match boolean_outcome(payload, db) {
                    Err(e) => Err(map_boolean_err(e, payload)),
                    Ok(b) => match condition_problem(b, db.variables@) {
                        Some(e) => Err(e),
                        None => Ok(b),
                    },
                }
            }
        },
        _ => Err(ReqErr::MissingCondition),
    }
}

fn map_boolean_error(error: BooleanParseError, source: &[char]) -> (r: RequirementParseError)
    ensures
        r@ == map_boolean_err(error@, source@),
{
    match error {
        BooleanParseError::BareIntegerOperandOfLogical { operator } => RequirementParseError::LogicalBareIntegerOperand { operator },
        BooleanParseError::BareIntegerOperandOfNot => RequirementParseError::LogicalBareIntegerOperandOfNot,
        BooleanParseError::BareIntegerAtTop => RequirementParseError::MalformedExpression { expression: string_from_chars(source) },
        BooleanParseError::MissingLeftOperand { operator } => RequirementParseError::LogicalMissingLeftOperand { operator, source: string_from_chars(source) },
        BooleanParseError::MissingRightOperand { operator } => RequirementParseError::LogicalMissingRightOperand { operator, source: string_from_chars(source) },
        BooleanParseError::MissingNotOperand => RequirementParseError::LogicalMissingNotOperand { source: string_from_chars(source) },
        BooleanParseError::UnbalancedParentheses => RequirementParseError::LogicalUnbalancedParentheses { source: string_from_chars(source) },
        BooleanParseError::UndefinedVariable { name } => RequirementParseError::UndefinedVariable { name },
        BooleanParseError::UnknownSymbol { symbol } => RequirementParseError::UnknownSymbol { symbol },
        BooleanParseError::LiteralOverflow { literal } => RequirementParseError::LiteralOverflow { literal },
        BooleanParseError::ExpressionTooDeep => RequirementParseError::ExpressionTooDeep,
        BooleanParseError::DoubleEquals => RequirementParseError::DoubleEquals,
        BooleanParseError::Malformed => RequirementParseError::MalformedExpression { expression: string_from_chars(source) },
    }
}

/// Every comparison operand of `b` only mentions declared variables.
pub open spec fn leaves_below(b: BooleanExpression, n: nat) -> bool
    decreases b,
{
    match b {
        BooleanExpression::Comparison(s) => vars_below(s.left, n) && vars_below(s.right, n),
        BooleanExpression::And(x, y) => leaves_below(*x, n) && leaves_below(*y, n),
        BooleanExpression::Or(x, y) => leaves_below(*x, n) && leaves_below(*y, n),
        BooleanExpression::Not(x) => leaves_below(*x, n),
    }
}

proof fn lemma_leaves_below(b: BooleanExpression, db: Database)
    requires
        bool_vars_ok(b, db),
        db.variables@.len() <= usize::MAX,
    ensures
        leaves_below(b, db.variables@.len()),
    decreases b,
{
    match b {
        BooleanExpression::Comparison(s) => {
            lemma_resolved_below(s.left, db);
            lemma_resolved_below(s.right, db);
        },
        BooleanExpression::And(x, y) => {
            lemma_leaves_below(*x, db);
            lemma_leaves_below(*y, db);
        },
        BooleanExpression::Or(x, y) => {
            lemma_leaves_below(*x, db);
            lemma_leaves_below(*y, db);
        },
        BooleanExpression::Not(x) => {
            lemma_leaves_below(*x, db);
        },
    }
}

/// Render an operand back to the token a reader would recognize.
fn render_operand(expression: &Expression, database: &Database) -> (s: String)
    requires
        vars_below(*expression, database.variables@.len()),
    ensures
        s@ == operand_text(*expression, database.variables@),
{
    match expression {
        Expression::Variable(id) => database.variables[*id].name.clone(),
        Expression::Literal(value) => value.to_text(),
        Expression::Binary { .. } => "expression".to_owned(),
    }
}

fn infer_kind(expression: &Expression, database: &Database) -> (r: Result<ValueKind, RequirementParseError>)
    requires
        vars_below(*expression, database.variables@.len()),
    ensures
        match infer(*expression, database.variables@) {
            Ok(k) => r == Ok::<ValueKind, RequirementParseError>(k),
            Err(e) => r matches Err(x) && x@ == map_inference_err(e),
        },
{
    match infer_type(expression, database) {
        Ok(k) => Ok(k),
        Err(TypeInferenceError::Mismatch { left, right, .. }) => Err(RequirementParseError::TypeMismatch { left, right }),
        Err(TypeInferenceError::NonNumericArithmetic { kind, .. }) => Err(RequirementParseError::NonNumericArithmetic { kind }),
    }
}

fn validate_comparison(statement: &RequirementStatement, database: &Database) -> (r: Result<(), RequirementParseError>)
    requires
        vars_below(statement.left, database.variables@.len()),
        vars_below(statement.right, database.variables@.len()),
    ensures
        match comparison_problem(*statement, database.variables@) {
            None => r is Ok,
            Some(e) => r matches Err(x) && x@ == e,
        },
{
    let left_kind = match infer_kind(&statement.left, database) {
        Ok(k) => k,
        Err(e) => return Err(e),
    };
    let right_kind = match infer_kind(&statement.right, database) {
        Ok(k) => k,
        Err(e) => return Err(e),
    };
    if left_kind != right_kind {
        return Err(RequirementParseError::ComparisonTypeMismatch {
            left_kind,
            left_token: render_operand(&statement.left, database),
            right_kind,
            right_token: render_operand(&statement.right, database),
        });
    }
    if statement.operator.requires_ordering() && !left_kind.is_ordered() {
        return Err(RequirementParseError::NonOrderedComparison { operator: statement.operator, kind: left_kind });
    }
    Ok(())
}

fn validate_leaves(expression: &BooleanExpression, database: &Database) -> (r: Result<(), RequirementParseError>)
    requires
        leaves_below(*expression, database.variables@.len()),
    ensures
        match condition_problem(*expression, database.variables@) {
            None => r is Ok,
            Some(e) => r matches Err(x) && x@ == e,
        },
    decreases expression,
{
    match expression {
        BooleanExpression::Comparison(statement) => validate_comparison(statement, database),
        BooleanExpression::And(left, right) | BooleanExpression::Or(left, right) => {
            match validate_leaves(left, database) {
                Ok(()) => {},
                Err(e) => return Err(e),
            }
            validate_leaves(right, database)
        },
        BooleanExpression::Not(inner) => validate_leaves(inner, database),
    }
}

/// Parse `content` (indentation already stripped) as a `req` statement.
/// The caller has checked it with [`is_requirement_line`].
pub fn parse_requirement(content: &str, database: &Database) -> (r: Result<ParsedRequirement, RequirementParseError>)
    requires
        is_keyword_line(content@, "req"@),
    ensures
        match requirement_outcome(content@, *database) {
            Ok(b) => r matches Ok(p) && p.expression == b,
            Err(e) => r matches Err(x) && x@ == e,
        },
        r matches Ok(p) ==> comparisons_typed(p.expression, database.variables@),
{
    let chars = chars_of(content);
    let keyword = chars_of("req");
    let rest = match strip_keyword(chars.as_slice(), keyword.as_slice()) {
        StripResult::Stripped(rest) => rest,
        _ => return Err(RequirementParseError::MissingCondition),
    };
    let payload = trim_chars(rest.as_slice());
    if payload.len() == 0 {
        return Err(RequirementParseError::MissingCondition);
    }
    let payload_text = string_from_chars(payload.as_slice());
    let expression = match parse_boolean_expression(payload_text.as_str(), database) {
        Ok(e) => e,
        Err(error) => return Err(map_boolean_error(error, payload.as_slice())),
    };
    let n = database.variables.len();
    proof {
        lemma_leaves_below(expression, *database);
    }
    match validate_leaves(&expression, database) {
        Ok(()) => {},
        Err(e) => return Err(e),
    }
    proof {
        lemma_condition_typed(expression, database.variables@);
    }
    Ok(ParsedRequirement { expression })
}

/// Does `content` (already trimmed of indentation) begin with the `req`
/// keyword followed by ASCII whitespace, or consist of it alone?
pub fn is_requirement_line(content: &str) -> (b: bool)
    ensures
        b == is_keyword_line(content@, "req"@),
{
    let chars = chars_of(content);
    let keyword = chars_of("req");
    match strip_keyword(chars.as_slice(), keyword.as_slice()) {
        StripResult::NotKeyword => false,
        _ => true,
    }
}

} // verus!
