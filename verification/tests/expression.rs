use cuentitos_parser::expression::{parse_expression, ParseExpressionError};
use cuentitos_parser::model::{evaluate, BinaryOperator, EvaluationError, Expression, Value};

/// A resolver whose names resolve to the given ids: each name sits at the
/// position equal to its id, the other positions hold unreachable names.
fn make_resolver(pairs: &[(&str, usize)]) -> Vec<(String, i64)> {
    let len = pairs.iter().map(|(_, id)| id + 1).max().unwrap_or(0);
    let mut entries: Vec<(String, i64)> = (0..len).map(|i| (format!("#{}", i), 0)).collect();
    for (name, id) in pairs {
        entries[*id] = (name.to_string(), 0);
    }
    entries
}

fn no_vars() -> Vec<(String, i64)> {
    Vec::new()
}

fn parse_and_eval(input: &str, vars: &[(&str, usize, i64)]) -> Result<i64, EvaluationError> {
    let pairs: Vec<(&str, usize)> = vars.iter().map(|(n, id, _)| (*n, *id)).collect();
    let resolver = make_resolver(&pairs);
    let expression = parse_expression(input, &resolver).expect("parse should succeed");
    let mut values: Vec<Value> = vec![Value::Integer(0); resolver.len()];
    for (_, id, v) in vars {
        values[*id] = Value::Integer(*v);
    }
    match evaluate(&expression, &values)? {
        Value::Integer(n) => Ok(n),
        _ => unreachable!("arithmetic folds only produce integers"),
    }
}

#[test]
fn parses_literal() {
    let resolver = no_vars();
    assert_eq!(parse_expression("42", &resolver).unwrap(), Expression::Literal(Value::Integer(42)));
}

#[test]
fn parses_true_and_false_as_bool_literals() {
    let resolver = no_vars();
    assert_eq!(parse_expression("true", &resolver).unwrap(), Expression::Literal(Value::Boolean(true)));
    assert_eq!(parse_expression("false", &resolver).unwrap(), Expression::Literal(Value::Boolean(false)));
}

#[test]
fn parses_negative_literal() {
    let resolver = no_vars();
    assert_eq!(parse_expression("-5", &resolver).unwrap(), Expression::Literal(Value::Integer(-5)));
}

#[test]
fn parses_i64_min_literal() {
    let resolver = no_vars();
    assert_eq!(
        parse_expression("-9223372036854775808", &resolver).unwrap(),
        Expression::Literal(Value::Integer(i64::MIN))
    );
}

#[test]
fn parses_one_below_i64_min_overflows() {
    let resolver = no_vars();
    assert_eq!(
        parse_expression("-9223372036854775809", &resolver).unwrap_err(),
        ParseExpressionError::Overflow { literal: "-9223372036854775809".to_string() }
    );
}

#[test]
fn parses_positive_overflow_carries_literal() {
    let resolver = no_vars();
    assert_eq!(
        parse_expression("99999999999999999999", &resolver).unwrap_err(),
        ParseExpressionError::Overflow { literal: "99999999999999999999".to_string() }
    );
}

#[test]
fn parses_undefined_variable_errors() {
    let resolver = no_vars();
    assert_eq!(
        parse_expression("missing", &resolver).unwrap_err(),
        ParseExpressionError::UndefinedVariable { name: "missing".to_string() }
    );
}

#[test]
fn parses_resolved_variable() {
    let resolver = make_resolver(&[("a", 7)]);
    assert_eq!(parse_expression("a", &resolver).unwrap(), Expression::Variable(7));
}

#[test]
fn parses_malformed_dangling_operator() {
    let resolver = no_vars();
    assert_eq!(parse_expression("5 +", &resolver).unwrap_err(), ParseExpressionError::Malformed);
}

#[test]
fn parses_malformed_unbalanced_paren() {
    let resolver = no_vars();
    assert_eq!(parse_expression("(1 + 2", &resolver).unwrap_err(), ParseExpressionError::Malformed);
}

#[test]
fn rejects_deep_unary_minus_chain() {
    let resolver = no_vars();
    let mut input = String::new();
    for _ in 0..200 {
        input.push('-');
    }
    input.push('1');
    assert_eq!(parse_expression(&input, &resolver).unwrap_err(), ParseExpressionError::Malformed);
}

#[test]
fn rejects_deep_paren_nesting() {
    let resolver = no_vars();
    let mut input = String::new();
    for _ in 0..200 {
        input.push('(');
    }
    input.push('1');
    for _ in 0..200 {
        input.push(')');
    }
    assert_eq!(parse_expression(&input, &resolver).unwrap_err(), ParseExpressionError::Malformed);
}

#[test]
fn parses_empty_input_as_malformed() {
    let resolver = no_vars();
    assert_eq!(parse_expression("", &resolver).unwrap_err(), ParseExpressionError::Malformed);
    assert_eq!(parse_expression("   ", &resolver).unwrap_err(), ParseExpressionError::Malformed);
}

#[test]
fn evaluates_arithmetic() {
    assert_eq!(parse_and_eval("1 + 2 * 3", &[]).unwrap(), 7);
    assert_eq!(parse_and_eval("(1 + 2) * 3", &[]).unwrap(), 9);
    assert_eq!(parse_and_eval("4 *5+ 6", &[]).unwrap(), 26);
}

#[test]
fn evaluates_with_variables() {
    assert_eq!(parse_and_eval("a + b * c", &[("a", 0, 5), ("b", 1, 2), ("c", 2, 3)]).unwrap(), 11);
}

#[test]
fn evaluates_division_truncates_toward_zero() {
    assert_eq!(parse_and_eval("7 / 2", &[]).unwrap(), 3);
    assert_eq!(parse_and_eval("-7 / 2", &[]).unwrap(), -3);
    assert_eq!(parse_and_eval("7 / -2", &[]).unwrap(), -3);
    assert_eq!(parse_and_eval("-7 / -2", &[]).unwrap(), 3);
}

#[test]
fn evaluates_division_by_zero() {
    assert_eq!(parse_and_eval("10 / 0", &[]).unwrap_err(), EvaluationError::DivisionByZero);
}

#[test]
fn evaluates_division_by_zero_through_variable() {
    assert_eq!(parse_and_eval("10 / x", &[("x", 0, 0)]).unwrap_err(), EvaluationError::DivisionByZero);
}

#[test]
fn evaluates_overflow_through_variable() {
    assert_eq!(parse_and_eval("big + 1", &[("big", 0, i64::MAX)]).unwrap_err(), EvaluationError::Overflow);
}

#[test]
fn negation_of_variable_lowered_to_zero_minus() {
    let resolver = make_resolver(&[("x", 0)]);
    let expression = parse_expression("-x", &resolver).unwrap();
    assert_eq!(
        expression,
        Expression::Binary {
            operator: BinaryOperator::Subtract,
            left: Box::new(Expression::Literal(Value::Integer(0))),
            right: Box::new(Expression::Variable(0)),
        }
    );
}

#[test]
fn negation_of_i64_min_value_at_runtime_overflows() {
    let resolver = make_resolver(&[("x", 0)]);
    let expression = parse_expression("-x", &resolver).unwrap();
    let values = vec![Value::Integer(i64::MIN)];
    assert_eq!(evaluate(&expression, &values).unwrap_err(), EvaluationError::Overflow);
}

#[test]
fn bare_integer_stays_integer_literal() {
    let resolver = no_vars();
    assert_eq!(parse_expression("5", &resolver).unwrap(), Expression::Literal(Value::Integer(5)));
}

#[test]
fn trailing_dot_is_not_a_float_literal() {
    let resolver = no_vars();
    assert_eq!(parse_expression("5.", &resolver).unwrap_err(), ParseExpressionError::Malformed);
}

#[test]
fn fractional_literal_is_malformed() {
    let resolver = no_vars();
    assert_eq!(parse_expression("7.5", &resolver).unwrap_err(), ParseExpressionError::Malformed);
}

#[test]
fn mixed_boolean_arithmetic_is_a_type_mismatch_at_eval() {
    let resolver = no_vars();
    let expression = parse_expression("true + 1", &resolver).unwrap();
    assert_eq!(evaluate(&expression, &Vec::new()).unwrap_err(), EvaluationError::TypeMismatch);
}
