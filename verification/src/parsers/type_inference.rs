//! Parse-time type inference for expressions.
use vstd::prelude::*;

use crate::database::{Database, Variable};
use crate::model::{vars_below, BinaryOperator, Expression, ValueKind};

verus! {

/// Errors produced by [`infer_type`].
#[derive(Debug, Clone, Copy, PartialEq, Eq, Structural)]
pub enum TypeInferenceError {
    /// The two operands of a binary expression had different kinds.
    Mismatch { operator: BinaryOperator, left: ValueKind, right: ValueKind },
    /// An arithmetic operator was applied to a non-numeric kind.
    NonNumericArithmetic { operator: BinaryOperator, kind: ValueKind },
}

/// The kind `e` produces: a literal's kind, a variable's declared kind; for
/// arithmetic, both operands (left first) must infer, agree, and be numeric.
pub open spec fn infer(e: Expression, vars: Seq<Variable>) -> Result<ValueKind, TypeInferenceError>
    decreases e,
{
    match e {
        Expression::Literal(v) => Ok(v.kind_spec()),
        Expression::Variable(id) => Ok(vars[id as int].default.kind_spec()),
        Expression::Binary { operator, left, right } => match infer(*left, vars) {
            Err(err) => Err(err),
            Ok(l) => match infer(*right, vars) {
                Err(err) => Err(err),
                Ok(r) => if l != r {
                    Err(TypeInferenceError::Mismatch { operator, left: l, right: r })
                } else if !l.is_numeric_spec() {
                    Err(TypeInferenceError::NonNumericArithmetic { operator, kind: l })
                } else {
                    Ok(l)
                },
            },
        },
    }
}

/// Arithmetic is typed only on operands of one numeric kind: a binary
/// expression infers to a kind `k` exactly when both operands infer to `k`
/// and `k` is numeric; operands that infer to different kinds give a
/// mismatch naming both kinds (the left one first).
pub proof fn lemma_infer_binary(operator: BinaryOperator, left: Expression, right: Expression, vars: Seq<Variable>)
    ensures
        ({
            let r = infer(Expression::Binary { operator, left: Box::new(left), right: Box::new(right) }, vars);
            &&& forall|k: ValueKind| r == Ok::<ValueKind, TypeInferenceError>(k) ==> infer(left, vars) == Ok::<ValueKind, TypeInferenceError>(k)
                && infer(right, vars) == Ok::<ValueKind, TypeInferenceError>(k) && k.is_numeric_spec()
            &&& forall|k: ValueKind| infer(left, vars) == Ok::<ValueKind, TypeInferenceError>(k) && infer(right, vars)
                == Ok::<ValueKind, TypeInferenceError>(k) && k.is_numeric_spec() ==> r == Ok::<ValueKind, TypeInferenceError>(k)
            &&& forall|a: ValueKind, b: ValueKind| infer(left, vars) == Ok::<ValueKind, TypeInferenceError>(a) && infer(right, vars)
                == Ok::<ValueKind, TypeInferenceError>(b) && a != b ==> r == Err::<ValueKind, TypeInferenceError>(
                TypeInferenceError::Mismatch { operator, left: a, right: b },
            )
        }),
{
}

/// A literal has the kind of its value and a variable the kind of its
/// declared default.
pub proof fn lemma_infer_leaves(v: crate::model::Value, id: usize, vars: Seq<Variable>)
    ensures
        infer(Expression::Literal(v), vars) == Ok::<ValueKind, TypeInferenceError>(v.kind_spec()),
        infer(Expression::Variable(id), vars) == Ok::<ValueKind, TypeInferenceError>(vars[id as int].default.kind_spec()),
{
}

/// Walk `expression` and return the kind of the value it produces.
pub fn infer_type(expression: &Expression, database: &Database) -> (r: Result<ValueKind, TypeInferenceError>)
    requires
        vars_below(*expression, database.variables@.len()),
    ensures
        r == infer(*expression, database.variables@),
    decreases expression,
{
    match expression {
        Expression::Literal(value) => Ok(value.kind()),
        Expression::Variable(id) => Ok(database.variables[*id].kind()),
        Expression::Binary { operator, left, right } => {
            let left_kind = match infer_type(left, database) {
                Ok(k) => k,
                Err(e) => return Err(e),
            };
            let right_kind = match infer_type(right, database) {
                Ok(k) => k,
                Err(e) => return Err(e),
            };
            if left_kind != right_kind {
                return Err(TypeInferenceError::Mismatch { operator: *operator, left: left_kind, right: right_kind });
            }
            if !left_kind.is_numeric() {
                return Err(TypeInferenceError::NonNumericArithmetic { operator: *operator, kind: left_kind });
            }
            Ok(left_kind)
        },
    }
}

} // verus!
