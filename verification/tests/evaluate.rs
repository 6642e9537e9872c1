use cuentitos_parser::parsers::variables_parser::{evaluate_expression, EvalError};

fn vars_from(pairs: &[(&str, i64)]) -> Vec<(String, i64)> {
    pairs.iter().map(|(k, v)| (k.to_string(), *v)).collect()
}

fn none() -> Vec<(String, i64)> {
    Vec::new()
}

#[test]
fn eval_literal() {
    assert_eq!(evaluate_expression("42", &none()).unwrap(), 42);
}

#[test]
fn eval_negative_literal() {
    assert_eq!(evaluate_expression("-5", &none()).unwrap(), -5);
}

#[test]
fn eval_i64_min_literal() {
    assert_eq!(evaluate_expression("-9223372036854775808", &none()).unwrap(), i64::MIN);
}

#[test]
fn eval_i64_min_minus_one_overflows() {
    assert_eq!(
        evaluate_expression("-9223372036854775809", &none()).unwrap_err(),
        EvalError::LiteralOverflow { literal: "-9223372036854775809".to_string() }
    );
}

#[test]
fn eval_parens() {
    assert_eq!(evaluate_expression("((1 + 2) * (3 + 4))", &none()).unwrap(), 21);
}

#[test]
fn eval_reference() {
    let vars = vars_from(&[("a", 3)]);
    assert_eq!(evaluate_expression("a + 2", &vars).unwrap(), 5);
}

#[test]
fn eval_integer_division_truncates_toward_zero() {
    assert_eq!(evaluate_expression("10 / 3", &none()).unwrap(), 3);
    assert_eq!(evaluate_expression("-10 / 3", &none()).unwrap(), -3);
    assert_eq!(evaluate_expression("10 / -3", &none()).unwrap(), -3);
}

#[test]
fn eval_div_by_zero() {
    assert_eq!(evaluate_expression("10 / 0", &none()).unwrap_err(), EvalError::DivisionByZero);
}

#[test]
fn eval_overflow() {
    assert_eq!(
        evaluate_expression("9223372036854775807 + 1", &none()).unwrap_err(),
        EvalError::Overflow
    );
}

#[test]
fn eval_malformed_dangling() {
    assert_eq!(evaluate_expression("5 +", &none()).unwrap_err(), EvalError::Malformed);
}

#[test]
fn eval_malformed_extra_paren() {
    assert_eq!(evaluate_expression("(1 + 2", &none()).unwrap_err(), EvalError::Malformed);
}

#[test]
fn eval_undefined_reference() {
    let err = evaluate_expression("unknown", &none()).unwrap_err();
    assert_eq!(err, EvalError::UndefinedVariable { name: "unknown".to_string() });
}

#[test]
fn eval_precedence_and_associativity() {
    assert_eq!(evaluate_expression("2 + 3 * 4", &none()).unwrap(), 14);
    assert_eq!(evaluate_expression("20 - 5 - 3", &none()).unwrap(), 12);
    assert_eq!(evaluate_expression("100 / 10 / 5", &none()).unwrap(), 2);
    assert_eq!(evaluate_expression("-(2 + 3)", &none()).unwrap(), -5);
    assert_eq!(evaluate_expression("+ + 7", &none()).unwrap(), 7);
}

#[test]
fn eval_literal_beyond_u64_overflows() {
    assert_eq!(
        evaluate_expression("99999999999999999999", &none()).unwrap_err(),
        EvalError::LiteralOverflow { literal: "99999999999999999999".to_string() }
    );
    assert_eq!(
        evaluate_expression("9223372036854775808", &none()).unwrap_err(),
        EvalError::LiteralOverflow { literal: "9223372036854775808".to_string() }
    );
}

#[test]
fn eval_negating_min_through_a_variable_overflows() {
    let vars = vars_from(&[("m", i64::MIN)]);
    assert_eq!(evaluate_expression("-m", &vars).unwrap_err(), EvalError::Overflow);
    assert_eq!(evaluate_expression("m / -1", &vars).unwrap_err(), EvalError::Overflow);
}

#[test]
fn eval_rejects_deep_nesting() {
    let deep = format!("{}1{}", "(".repeat(65), ")".repeat(65));
    assert_eq!(evaluate_expression(&deep, &none()).unwrap_err(), EvalError::Malformed);
    let ok = format!("{}1{}", "(".repeat(64), ")".repeat(64));
    assert_eq!(evaluate_expression(&ok, &none()).unwrap(), 1);
}

#[test]
fn eval_rejects_stray_symbols() {
    assert_eq!(evaluate_expression("1 % 2", &none()).unwrap_err(), EvalError::Malformed);
    assert_eq!(evaluate_expression("", &none()).unwrap_err(), EvalError::Malformed);
    assert_eq!(evaluate_expression("1 2", &none()).unwrap_err(), EvalError::Malformed);
}
