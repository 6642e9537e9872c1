//! The script model the parsers build: values, arithmetic expressions,
//! boolean conditions, and the checked integer evaluator that folds them.
use vstd::prelude::*;

use crate::text::{chars_of, decimal, push_all, push_decimal, string_from_chars};

verus! {

/// Index of a declared variable.
pub type VariableId = usize;

/// A runtime value.
#[derive(Debug, Clone, PartialEq, Eq)]
pub enum Value {
    Integer(i64),
    Boolean(bool),
    String(String),
    /// A value of an enumeration: one of its variants. `variants` holds the
    /// variant names in declaration order, separated by commas (a variant
    /// name is an identifier, so it holds no comma).
    Enum { variants: String, value: String },
    /// An enumeration variable before any variant is assigned.
    EnumUnset { variants: String },
}

/// The kind (type) of a value.
#[derive(Debug, Clone, Copy, PartialEq, Eq, Structural)]
pub enum ValueKind {
    Integer,
    Boolean,
    String,
    Enum,
}

impl Value {
    pub open spec fn kind_spec(&self) -> ValueKind {
        match self {
            Value::Integer(_) => ValueKind::Integer,
            Value::Boolean(_) => ValueKind::Boolean,
            Value::String(_) => ValueKind::String,
            Value::Enum { .. } => ValueKind::Enum,
            Value::EnumUnset { .. } => ValueKind::Enum,
        }
    }

    /// A copy of this value.
    pub fn duplicate(&self) -> (r: Value)
        ensures
            r == *self,
    {
        match self {
            Value::Integer(n) => Value::Integer(*n),
            Value::Boolean(b) => Value::Boolean(*b),
            Value::String(s) => Value::String(s.clone()),
            Value::Enum { variants, value } => Value::Enum { variants: variants.clone(), value: value.clone() },
            Value::EnumUnset { variants } => Value::EnumUnset { variants: variants.clone() },
        }
    }

    /// The kind of this value.
    pub fn kind(&self) -> (k: ValueKind)
        ensures
            k == self.kind_spec(),
    {
        match self {
            Value::Integer(_) => ValueKind::Integer,
            Value::Boolean(_) => ValueKind::Boolean,
            Value::String(_) => ValueKind::String,
            Value::Enum { .. } => ValueKind::Enum,
            Value::EnumUnset { .. } => ValueKind::Enum,
        }
    }
}

/// The decimal text of an integer, with a leading `-` when negative.
pub open spec fn int_text(v: i64) -> Seq<char> {
    if v < 0 {
        seq!['-'] + decimal((0 - v) as nat)
    } else {
        decimal(v as nat)
    }
}

/// The text a value displays as: an integer in decimal, a boolean as
/// `true`/`false`, a string as its content, an enumeration value as its
/// variant (nothing while unset).
pub open spec fn value_text(v: Value) -> Seq<char> {
    match v {
        Value::Integer(n) => int_text(n),
        Value::Boolean(b) => if b {
            "true"@
        } else {
            "false"@
        },
        Value::String(s) => s@,
        Value::Enum { value, .. } => value@,
        Value::EnumUnset { .. } => seq![],
    }
}

/// Appends the decimal text of `v` to `out`.
pub fn push_int_text(out: &mut Vec<char>, v: i64)
    ensures
        final(out)@ == old(out)@ + int_text(v),
{
    if v < 0 {
        out.push('-');
        let magnitude: u64 = if v == i64::MIN {
            0x8000_0000_0000_0000u64
        } else {
            (0 - v) as u64
        };
        push_decimal(out, magnitude);
        assert(final(out)@ =~= old(out)@ + int_text(v));
    } else {
        push_decimal(out, v as u64);
    }
}

impl Value {
    /// The text this value displays as.
    pub fn to_text(&self) -> (s: String)
        ensures
            s@ == value_text(*self),
    {
        match self {
            Value::Integer(n) => {
                let mut out: Vec<char> = Vec::new();
                push_int_text(&mut out, *n);
                assert(out@ =~= int_text(*n));
                string_from_chars(out.as_slice())
            },
            Value::Boolean(b) => {
                if *b {
                    "true".to_owned()
                } else {
                    "false".to_owned()
                }
            },
            Value::String(s) => s.clone(),
            Value::Enum { value, .. } => value.clone(),
            Value::EnumUnset { .. } => String::new(),
        }
    }
}

impl ValueKind {
    /// Whether values of this kind are ordered (support `<`, `<=`, `>`, `>=`).
    pub open spec fn is_ordered_spec(self) -> bool {
        self == ValueKind::Integer
    }

    pub fn is_ordered(self) -> (b: bool)
        ensures
            b == self.is_ordered_spec(),
    {
        match self {
            ValueKind::Integer => true,
            _ => false,
        }
    }

    /// Whether arithmetic applies to values of this kind.
    pub open spec fn is_numeric_spec(self) -> bool {
        self == ValueKind::Integer
    }

    pub fn is_numeric(self) -> (b: bool)
        ensures
            b == self.is_numeric_spec(),
    {
        match self {
            ValueKind::Integer => true,
            _ => false,
        }
    }
}

/// Arithmetic operators.
#[derive(Debug, Clone, Copy, PartialEq, Eq, Structural)]
pub enum BinaryOperator {
    Add,
    Subtract,
    Multiply,
    Divide,
}

/// An arithmetic expression over literals and declared variables.
#[derive(Debug, PartialEq, Eq)]
pub enum Expression {
    Literal(Value),
    Variable(VariableId),
    Binary { operator: BinaryOperator, left: Box<Expression>, right: Box<Expression> },
}

/// Comparison operators of `req` conditions.
#[derive(Debug, Clone, Copy, PartialEq, Eq, Structural)]
pub enum ComparisonOperator {
    Equal,
    NotEqual,
    Less,
    LessOrEqual,
    Greater,
    GreaterOrEqual,
}

impl ComparisonOperator {
    pub open spec fn requires_ordering_spec(self) -> bool {
        !(self == ComparisonOperator::Equal || self == ComparisonOperator::NotEqual)
    }

    /// Whether `a operator b` holds of two integers.
    pub open spec fn holds(self, a: int, b: int) -> bool {
        match self {
            ComparisonOperator::Equal => a == b,
            ComparisonOperator::NotEqual => a != b,
            ComparisonOperator::Less => a < b,
            ComparisonOperator::LessOrEqual => a <= b,
            ComparisonOperator::Greater => a > b,
            ComparisonOperator::GreaterOrEqual => a >= b,
        }
    }

    /// Compares two integers with this operator.
    pub fn apply(self, a: i64, b: i64) -> (r: bool)
        ensures
            r == self.holds(a as int, b as int),
    {
        match self {
            ComparisonOperator::Equal => a == b,
            ComparisonOperator::NotEqual => a != b,
            ComparisonOperator::Less => a < b,
            ComparisonOperator::LessOrEqual => a <= b,
            ComparisonOperator::Greater => a > b,
            ComparisonOperator::GreaterOrEqual => a >= b,
        }
    }

    /// Whether the operator needs an ordered kind.
    pub fn requires_ordering(self) -> (b: bool)
        ensures
            b == self.requires_ordering_spec(),
    {
        match self {
            ComparisonOperator::Equal | ComparisonOperator::NotEqual => false,
            _ => true,
        }
    }
}

/// A comparison `left operator right`.
#[derive(Debug, PartialEq, Eq)]
pub struct RequirementStatement {
    pub left: Expression,
    pub operator: ComparisonOperator,
    pub right: Expression,
}

impl RequirementStatement {
    pub fn new(left: Expression, operator: ComparisonOperator, right: Expression) -> (s: Self)
        ensures
            s.left == left,
            s.operator == operator,
            s.right == right,
    {
        RequirementStatement { left, operator, right }
    }
}

/// A boolean condition tree whose leaves are comparisons.
#[derive(Debug, PartialEq, Eq)]
pub enum BooleanExpression {
    Comparison(RequirementStatement),
    And(Box<BooleanExpression>, Box<BooleanExpression>),
    Or(Box<BooleanExpression>, Box<BooleanExpression>),
    Not(Box<BooleanExpression>),
}

/// Assignment operators of `set` statements.
#[derive(Debug, Clone, Copy, PartialEq, Eq, Structural)]
pub enum AssignmentOperator {
    Assign,
    AddAssign,
    SubtractAssign,
    MultiplyAssign,
    DivideAssign,
}

// ---------------------------------------------------------------------------
// Evaluation
// ---------------------------------------------------------------------------

/// Errors raised while folding an expression.
#[derive(Debug, Clone, Copy, PartialEq, Eq, Structural)]
pub enum EvaluationError {
    DivisionByZero,
    Overflow,
    TypeMismatch,
}

/// Every variable that `e` mentions is below `n`.
pub open spec fn vars_below(e: Expression, n: nat) -> bool
    decreases e,
{
    match e {
        Expression::Literal(_) => true,
        Expression::Variable(id) => id < n,
        Expression::Binary { left, right, .. } => vars_below(*left, n) && vars_below(*right, n),
    }
}

/// Checked integer arithmetic: `None` is overflow (division by zero is
/// handled before this is consulted).
pub open spec fn apply_int(op: BinaryOperator, a: i64, b: i64) -> Option<i64> {
    match op {
        BinaryOperator::Add => a.checked_add(b),
        BinaryOperator::Subtract => a.checked_sub(b),
        BinaryOperator::Multiply => a.checked_mul(b),
        BinaryOperator::Divide => a.checked_div(b),
    }
}

/// The value `e` folds to, given the values of the variables.
///
/// Operands fold left to right; the first error wins. Integer operations
/// are checked: a zero divisor is `DivisionByZero`, any result outside `i64`
/// is `Overflow`, and division truncates toward zero. Arithmetic on a
/// non-integer is `TypeMismatch`.
pub open spec fn eval(e: Expression, values: Seq<Value>) -> Result<Value, EvaluationError>
    decreases e,
{
    match e {
        Expression::Literal(v) => Ok(v),
        Expression::Variable(id) => Ok(values[id as int]),
        Expression::Binary { operator, left, right } => match eval(*left, values) {
            Err(err) => Err(err),
            Ok(l) => match eval(*right, values) {
                Err(err) => Err(err),
                Ok(r) => match (l, r) {
                    (Value::Integer(a), Value::Integer(b)) => if operator
                        == BinaryOperator::Divide && b == 0 {
                        Err(EvaluationError::DivisionByZero)
                    } else {
                        match apply_int(operator, a, b) {
                            Some(v) => Ok(Value::Integer(v)),
                            None => Err(EvaluationError::Overflow),
                        }
                    },
                    _ => Err(EvaluationError::TypeMismatch),
                },
            },
        },
    }
}

/// Integer arithmetic folds to the exact mathematical result: when both
/// operands fold to integers `a` and `b`, `a + b`, `a - b` and `a * b` fold
/// to the sum, difference and product when it fits in an `i64`, and to
/// `Overflow` when it does not; a division by zero is `DivisionByZero`, and
/// any other division gives the quotient `q` truncated toward zero: `q * b`
/// leaves a remainder `a - q * b` smaller than `b` in size and of the sign
/// of `a` (or zero), `Overflow` when `q` does not fit.
pub proof fn lemma_eval_integer_arithmetic(
    operator: BinaryOperator,
    left: Expression,
    right: Expression,
    values: Seq<Value>,
    a: i64,
    b: i64,
)
    requires
        eval(left, values) == Ok::<Value, EvaluationError>(Value::Integer(a)),
        eval(right, values) == Ok::<Value, EvaluationError>(Value::Integer(b)),
    ensures
        ({
            let r = eval(Expression::Binary { operator, left: Box::new(left), right: Box::new(right) }, values);
            match operator {
                BinaryOperator::Add => if i64::MIN <= a + b <= i64::MAX {
                    r == Ok::<Value, EvaluationError>(Value::Integer((a + b) as i64))
                } else {
                    r == Err::<Value, EvaluationError>(EvaluationError::Overflow)
                },
                BinaryOperator::Subtract => if i64::MIN <= a - b <= i64::MAX {
                    r == Ok::<Value, EvaluationError>(Value::Integer((a - b) as i64))
                } else {
                    r == Err::<Value, EvaluationError>(EvaluationError::Overflow)
                },
                BinaryOperator::Multiply => if i64::MIN <= a * b <= i64::MAX {
                    r == Ok::<Value, EvaluationError>(Value::Integer((a * b) as i64))
                } else {
                    r == Err::<Value, EvaluationError>(EvaluationError::Overflow)
                },
                BinaryOperator::Divide => if b == 0 {
                    r == Err::<Value, EvaluationError>(EvaluationError::DivisionByZero)
                } else if a == i64::MIN && b == -1 {
                    r == Err::<Value, EvaluationError>(EvaluationError::Overflow)
                } else {
                    r matches Ok(Value::Integer(q)) && {
                        let rem = a - q * b;
                        &&& (if rem >= 0 { rem } else { -rem }) < (if b >= 0 { b as int } else { -b })
                        &&& (rem == 0 || (rem > 0) == (a > 0))
                    }
                },
            }
        }),
{
    if operator == BinaryOperator::Divide && b != 0 && !(a == i64::MIN && b == -1) {
        let x = a as int;
        let d = b as int;
        let q: int = if x == 0 {
            0
        } else if x > 0 && d > 0 {
            x / d
        } else if x < 0 && d < 0 {
            (x * -1) / (d * -1)
        } else if x < 0 {
            ((x * -1) / d) * -1
        } else {
            (x / (d * -1)) * -1
        };
        if x == 0 {
        } else if x > 0 && d > 0 {
            assert(0 <= x - q * d < d && 0 <= q <= x) by (nonlinear_arith)
                requires x > 0, d > 0, q == x / d;
        } else if x < 0 && d < 0 {
            assert(0 <= (-x) - q * (-d) < -d && 0 <= q <= -x) by (nonlinear_arith)
                requires -x > 0, -d > 0, q == (x * -1) / (d * -1);
            assert(x - q * d == -((-x) - q * (-d))) by (nonlinear_arith);
            if d == -1 {
                assert(q == -x) by (nonlinear_arith)
                    requires d == -1, q == (x * -1) / (d * -1);
            } else {
                assert(2 * q <= -x) by (nonlinear_arith)
                    requires -d >= 2, 0 <= (-x) - q * (-d), q >= 0;
            }
        } else if x < 0 {
            let q0 = (x * -1) / d;
            assert(0 <= (-x) - q0 * d < d && 0 <= q0 <= -x) by (nonlinear_arith)
                requires -x > 0, d > 0, q0 == (x * -1) / d;
            assert(q == q0 * -1);
            assert(x - q * d == -((-x) - q0 * d)) by (nonlinear_arith)
                requires q == q0 * -1;
        } else {
            let q0 = x / (d * -1);
            assert(0 <= x - q0 * (-d) < -d && 0 <= q0 <= x) by (nonlinear_arith)
                requires x > 0, -d > 0, q0 == x / (d * -1);
            assert(q == q0 * -1);
            assert(x - q * d == x - q0 * (-d)) by (nonlinear_arith)
                requires q == q0 * -1;
        }
        assert(i64::MIN <= q <= i64::MAX);
        assert(a.checked_div(b) == Some(q as i64));
        assert(apply_int(operator, a, b) == Some(q as i64));
    }
}

/// A literal folds to itself and a variable to its value; a binary
/// expression fails with the error of its left operand if that fails, else
/// with the error of its right operand if that fails, and with
/// `TypeMismatch` when an operand is not an integer.
pub proof fn lemma_eval_leaves_and_errors(
    operator: BinaryOperator,
    left: Expression,
    right: Expression,
    values: Seq<Value>,
    v: Value,
    id: VariableId,
)
    ensures
        eval(Expression::Literal(v), values) == Ok::<Value, EvaluationError>(v),
        eval(Expression::Variable(id), values) == Ok::<Value, EvaluationError>(values[id as int]),
        ({
            let r = eval(Expression::Binary { operator, left: Box::new(left), right: Box::new(right) }, values);
            &&& eval(left, values) is Err ==> r == eval(left, values)
            &&& eval(left, values) is Ok && eval(right, values) is Err ==> r == eval(right, values)
            &&& (eval(left, values) matches Ok(l) && eval(right, values) matches Ok(rv) && !(l is Integer && rv is Integer))
                ==> r == Err::<Value, EvaluationError>(EvaluationError::TypeMismatch)
        }),
{
}

/// Folds `expression` with checked integer arithmetic against `values`
/// (indexed by variable id).
pub fn evaluate(expression: &Expression, values: &Vec<Value>) -> (r: Result<Value, EvaluationError>)
    requires
        vars_below(*expression, values@.len()),
    ensures
        r == eval(*expression, values@),
    decreases expression,
{
    match expression {
        Expression::Literal(v) => Ok(v.duplicate()),
        Expression::Variable(id) => Ok(values[*id].duplicate()),
        Expression::Binary { operator, left, right } => {
            let l = match evaluate(left, values) {
                Err(err) => return Err(err),
                Ok(l) => l,
            };
            let r = match evaluate(right, values) {
                Err(err) => return Err(err),
                Ok(r) => r,
            };
            match (l, r) {
                (Value::Integer(a), Value::Integer(b)) => {
                    if *operator == BinaryOperator::Divide && b == 0 {
                        return Err(EvaluationError::DivisionByZero);
                    }
                    let result = match operator {
                        BinaryOperator::Add => a.checked_add(b),
                        BinaryOperator::Subtract => a.checked_sub(b),
                        BinaryOperator::Multiply => a.checked_mul(b),
                        BinaryOperator::Divide => a.checked_div(b),
                    };
                    match result {
                        Some(v) => Ok(Value::Integer(v)),
                        None => Err(EvaluationError::Overflow),
                    }
                },
                _ => Err(EvaluationError::TypeMismatch),
            }
        },
    }
}

} // verus!
