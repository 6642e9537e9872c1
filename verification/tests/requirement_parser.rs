use cuentitos_parser::boolean_expression::LogicalKeyword;
use cuentitos_parser::database::{Database, Variable};
use cuentitos_parser::model::{BooleanExpression, ComparisonOperator, Expression, RequirementStatement, Value, ValueKind};
use cuentitos_parser::parsers::requirement_parser::{parse_requirement, RequirementParseError};

fn db_with(vars: &[&str]) -> Database {
    let mut db = Database::new();
    for name in vars {
        db.add_variable(Variable::new(name.to_string(), Value::Integer(0)));
    }
    db
}

fn db_with_bools(vars: &[&str]) -> Database {
    let mut db = Database::new();
    for name in vars {
        db.add_variable(Variable::new(name.to_string(), Value::Boolean(false)));
    }
    db
}

fn db_with_strings(vars: &[(&str, &str)]) -> Database {
    let mut db = Database::new();
    for (name, default) in vars {
        db.add_variable(Variable::new(name.to_string(), Value::String(default.to_string())));
    }
    db
}

fn assert_comparison(expression: &BooleanExpression, expected_operator: ComparisonOperator) -> &RequirementStatement {
    match expression {
        BooleanExpression::Comparison(stmt) => {
            assert_eq!(stmt.operator, expected_operator);
            stmt
        }
        other => panic!("expected Comparison, got {:?}", other),
    }
}

#[test]
fn requirement_parser_parses_each_comparison_operator() {
    let db = db_with(&["x"]);
    for (input, expected_operator) in [
        ("req x > 0", ComparisonOperator::Greater),
        ("req x < 0", ComparisonOperator::Less),
        ("req x >= 0", ComparisonOperator::GreaterOrEqual),
        ("req x <= 0", ComparisonOperator::LessOrEqual),
        ("req x = 0", ComparisonOperator::Equal),
        ("req x != 0", ComparisonOperator::NotEqual),
    ] {
        let parsed = parse_requirement(input, &db).unwrap();
        let stmt = assert_comparison(&parsed.expression, expected_operator);
        assert_eq!(stmt.left, Expression::Variable(0));
        assert_eq!(stmt.right, Expression::Literal(Value::Integer(0)));
    }
}

#[test]
fn parses_logical_and() {
    let db = db_with(&["x", "y"]);
    let parsed = parse_requirement("req x > 0 and y > 0", &db).unwrap();
    assert!(matches!(parsed.expression, BooleanExpression::And(_, _)));
}

#[test]
fn parses_logical_or() {
    let db = db_with(&["x", "y"]);
    let parsed = parse_requirement("req x > 0 or y > 0", &db).unwrap();
    assert!(matches!(parsed.expression, BooleanExpression::Or(_, _)));
}

#[test]
fn parses_logical_not() {
    let db = db_with(&["x"]);
    let parsed = parse_requirement("req not x > 0", &db).unwrap();
    assert!(matches!(parsed.expression, BooleanExpression::Not(_)));
}

#[test]
fn requirement_parser_parses_arithmetic_rhs() {
    let db = db_with(&["x", "y"]);
    let parsed = parse_requirement("req x > y + 1", &db).unwrap();
    let stmt = assert_comparison(&parsed.expression, ComparisonOperator::Greater);
    assert!(matches!(stmt.right, Expression::Binary { .. }));
}

#[test]
fn requirement_parser_parses_negative_literal_rhs() {
    let db = db_with(&["x"]);
    let parsed = parse_requirement("req x > -10", &db).unwrap();
    let stmt = assert_comparison(&parsed.expression, ComparisonOperator::Greater);
    assert_eq!(stmt.right, Expression::Literal(Value::Integer(-10)));
}

#[test]
fn requirement_parser_returns_undefined_for_lhs() {
    let db = db_with(&[]);
    assert_eq!(
        parse_requirement("req mana > 0", &db).unwrap_err(),
        RequirementParseError::UndefinedVariable { name: "mana".to_string() }
    );
}

#[test]
fn requirement_parser_returns_undefined_for_rhs_inside_expression() {
    let db = db_with(&["health"]);
    assert_eq!(
        parse_requirement("req health > 5 + mana", &db).unwrap_err(),
        RequirementParseError::UndefinedVariable { name: "mana".to_string() }
    );
}

#[test]
fn requirement_parser_returns_malformed_for_dangling_operator() {
    let db = db_with(&["x"]);
    assert_eq!(
        parse_requirement("req x > 5 +", &db).unwrap_err(),
        RequirementParseError::MalformedExpression { expression: "x > 5 +".to_string() }
    );
}

#[test]
fn returns_unknown_symbol_for_tilde() {
    let db = db_with(&["x"]);
    assert_eq!(
        parse_requirement("req x ~ 5", &db).unwrap_err(),
        RequirementParseError::UnknownSymbol { symbol: "~".to_string() }
    );
}

#[test]
fn returns_unknown_symbol_for_ampersand() {
    let db = db_with(&["x", "y"]);
    assert_eq!(
        parse_requirement("req x > 0 & y > 0", &db).unwrap_err(),
        RequirementParseError::UnknownSymbol { symbol: "&".to_string() }
    );
}

#[test]
fn bare_keyword_is_missing_condition() {
    let db = db_with(&[]);
    assert_eq!(parse_requirement("req", &db).unwrap_err(), RequirementParseError::MissingCondition);
}

#[test]
fn requirement_parser_tab_after_keyword_parses() {
    let db = db_with(&["x"]);
    let parsed = parse_requirement("req\tx > 0", &db).unwrap();
    let stmt = assert_comparison(&parsed.expression, ComparisonOperator::Greater);
    assert_eq!(stmt.left, Expression::Variable(0));
}

#[test]
fn requirement_parser_rejects_bare_integer_left_of_and() {
    let db = db_with(&["health", "shield"]);
    assert_eq!(
        parse_requirement("req health and shield > 0", &db).unwrap_err(),
        RequirementParseError::LogicalBareIntegerOperand { operator: LogicalKeyword::And }
    );
}

#[test]
fn requirement_parser_rejects_bare_integer_right_of_and() {
    let db = db_with(&["x", "y"]);
    assert_eq!(
        parse_requirement("req x > 0 and y", &db).unwrap_err(),
        RequirementParseError::LogicalBareIntegerOperand { operator: LogicalKeyword::And }
    );
}

#[test]
fn requirement_parser_rejects_bare_integer_right_of_or() {
    let db = db_with(&["x", "y"]);
    assert_eq!(
        parse_requirement("req x > 0 or y", &db).unwrap_err(),
        RequirementParseError::LogicalBareIntegerOperand { operator: LogicalKeyword::Or }
    );
}

#[test]
fn requirement_parser_rejects_missing_right_operand_and() {
    let db = db_with(&["x"]);
    assert_eq!(
        parse_requirement("req x > 0 and", &db).unwrap_err(),
        RequirementParseError::LogicalMissingRightOperand { operator: LogicalKeyword::And, source: "x > 0 and".to_string() }
    );
}

#[test]
fn requirement_parser_rejects_unbalanced_open_paren() {
    let db = db_with(&["x"]);
    assert_eq!(
        parse_requirement("req (x > 0 and x < 10", &db).unwrap_err(),
        RequirementParseError::LogicalUnbalancedParentheses { source: "(x > 0 and x < 10".to_string() }
    );
}

#[test]
fn rejects_literal_overflow_with_literal_in_error() {
    let db = db_with(&["x"]);
    assert_eq!(
        parse_requirement("req x > 99999999999999999999", &db).unwrap_err(),
        RequirementParseError::LiteralOverflow { literal: "99999999999999999999".to_string() }
    );
}

#[test]
fn rejects_double_equals_with_dedicated_error() {
    let db = db_with(&["x"]);
    assert_eq!(parse_requirement("req x == 5", &db).unwrap_err(), RequirementParseError::DoubleEquals);
}

#[test]
fn truthiness_shortcut_desugars_to_equals_true() {
    let db = db_with_bools(&["flag"]);
    let parsed = parse_requirement("req flag", &db).unwrap();
    let stmt = assert_comparison(&parsed.expression, ComparisonOperator::Equal);
    assert_eq!(stmt.left, Expression::Variable(0));
    assert_eq!(stmt.right, Expression::Literal(Value::Boolean(true)));
}

#[test]
fn truthiness_shortcut_negated_with_not() {
    let db = db_with_bools(&["flag"]);
    let parsed = parse_requirement("req not flag", &db).unwrap();
    match parsed.expression {
        BooleanExpression::Not(inner) => {
            assert_comparison(&inner, ComparisonOperator::Equal);
        }
        other => panic!("expected Not, got {:?}", other),
    }
}

#[test]
fn truthiness_shortcuts_combine_with_and() {
    let db = db_with_bools(&["a", "b"]);
    let parsed = parse_requirement("req a and b", &db).unwrap();
    assert!(matches!(parsed.expression, BooleanExpression::And(_, _)));
}

#[test]
fn bare_int_operand_is_not_truthiness() {
    let db = db_with(&["health"]);
    assert_eq!(
        parse_requirement("req health", &db).unwrap_err(),
        RequirementParseError::MalformedExpression { expression: "health".to_string() }
    );
}

#[test]
fn compares_bool_variable_to_literal() {
    let db = db_with_bools(&["flag"]);
    let parsed = parse_requirement("req flag = true", &db).unwrap();
    let stmt = assert_comparison(&parsed.expression, ComparisonOperator::Equal);
    assert_eq!(stmt.left, Expression::Variable(0));
    assert_eq!(stmt.right, Expression::Literal(Value::Boolean(true)));
}

#[test]
fn compares_two_bool_variables() {
    let db = db_with_bools(&["a", "b"]);
    let parsed = parse_requirement("req a != b", &db).unwrap();
    let stmt = assert_comparison(&parsed.expression, ComparisonOperator::NotEqual);
    assert_eq!(stmt.left, Expression::Variable(0));
    assert_eq!(stmt.right, Expression::Variable(1));
}

#[test]
fn ordering_operator_on_bool_is_rejected() {
    let db = db_with_bools(&["flag"]);
    assert_eq!(
        parse_requirement("req flag > false", &db).unwrap_err(),
        RequirementParseError::NonOrderedComparison { operator: ComparisonOperator::Greater, kind: ValueKind::Boolean }
    );
}

#[test]
fn comparing_bool_to_int_literal_is_type_mismatch() {
    let db = db_with_bools(&["flag"]);
    assert_eq!(
        parse_requirement("req flag = 1", &db).unwrap_err(),
        RequirementParseError::ComparisonTypeMismatch {
            left_kind: ValueKind::Boolean,
            left_token: "flag".to_string(),
            right_kind: ValueKind::Integer,
            right_token: "1".to_string(),
        }
    );
}

#[test]
fn comparing_bool_to_int_variable_is_type_mismatch() {
    let mut db = db_with_bools(&["flag"]);
    db.add_variable(Variable::new("health".to_string(), Value::Integer(0)));
    assert_eq!(
        parse_requirement("req flag = health", &db).unwrap_err(),
        RequirementParseError::ComparisonTypeMismatch {
            left_kind: ValueKind::Boolean,
            left_token: "flag".to_string(),
            right_kind: ValueKind::Integer,
            right_token: "health".to_string(),
        }
    );
}

#[test]
fn truthiness_shortcut_on_undeclared_is_undefined_variable() {
    let db = db_with_bools(&["flag"]);
    assert_eq!(
        parse_requirement("req missing", &db).unwrap_err(),
        RequirementParseError::UndefinedVariable { name: "missing".to_string() }
    );
}

#[test]
fn parses_string_variable_on_both_sides() {
    let db = db_with_strings(&[("a", "Aria"), ("b", "Aria")]);
    let parsed = parse_requirement("req a = b", &db).unwrap();
    let stmt = assert_comparison(&parsed.expression, ComparisonOperator::Equal);
    assert_eq!(stmt.left, Expression::Variable(0));
    assert_eq!(stmt.right, Expression::Variable(1));
}

#[test]
fn comparing_string_to_int_literal_is_type_mismatch() {
    let db = db_with_strings(&[("name", "Aria")]);
    assert_eq!(
        parse_requirement("req name = 1", &db).unwrap_err(),
        RequirementParseError::ComparisonTypeMismatch {
            left_kind: ValueKind::String,
            left_token: "name".to_string(),
            right_kind: ValueKind::Integer,
            right_token: "1".to_string(),
        }
    );
}

#[test]
fn bare_string_variable_has_no_truthiness_shortcut() {
    let db = db_with_strings(&[("name", "Aria")]);
    assert_eq!(
        parse_requirement("req name", &db).unwrap_err(),
        RequirementParseError::MalformedExpression { expression: "name".to_string() }
    );
}
