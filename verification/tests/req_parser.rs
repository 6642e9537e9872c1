use cuentitos_parser::database::{Database, Variable};
use cuentitos_parser::model::{ComparisonOperator, Expression, Value};
use cuentitos_parser::parsers::req_parser::{parse_req, ReqParseError};

fn db_with(vars: &[&str]) -> Database {
    let mut db = Database::new();
    for name in vars {
        db.add_variable(Variable::new(name.to_string(), Value::Integer(0)));
    }
    db
}

#[test]
fn req_parser_parses_each_comparison_operator() {
    let db = db_with(&["x"]);
    for (input, expected_op) in [
        ("req x > 0", ComparisonOperator::Greater),
        ("req x < 0", ComparisonOperator::Less),
        ("req x >= 0", ComparisonOperator::GreaterOrEqual),
        ("req x <= 0", ComparisonOperator::LessOrEqual),
        ("req x = 0", ComparisonOperator::Equal),
        ("req x != 0", ComparisonOperator::NotEqual),
    ] {
        let parsed = parse_req(input, &db).unwrap();
        assert_eq!(parsed.op, expected_op, "input: {}", input);
        assert_eq!(parsed.variable_id, 0);
        assert_eq!(parsed.expression, Expression::Literal(Value::Integer(0)));
    }
}

#[test]
fn req_parser_parses_arithmetic_rhs() {
    let db = db_with(&["x", "y"]);
    let parsed = parse_req("req x > y + 1", &db).unwrap();
    assert_eq!(parsed.op, ComparisonOperator::Greater);
    assert!(matches!(parsed.expression, Expression::Binary { .. }));
}

#[test]
fn req_parser_parses_negative_literal_rhs() {
    let db = db_with(&["x"]);
    let parsed = parse_req("req x > -10", &db).unwrap();
    assert_eq!(parsed.expression, Expression::Literal(Value::Integer(-10)));
}

#[test]
fn req_parser_returns_undefined_for_lhs() {
    let db = db_with(&[]);
    assert_eq!(
        parse_req("req mana > 0", &db).unwrap_err(),
        ReqParseError::UndefinedVariable { name: "mana".to_string() }
    );
}

#[test]
fn returns_undefined_for_rhs() {
    let db = db_with(&["health"]);
    assert_eq!(
        parse_req("req health > mana", &db).unwrap_err(),
        ReqParseError::UndefinedVariable { name: "mana".to_string() }
    );
}

#[test]
fn req_parser_returns_undefined_for_rhs_inside_expression() {
    let db = db_with(&["health"]);
    assert_eq!(
        parse_req("req health > 5 + mana", &db).unwrap_err(),
        ReqParseError::UndefinedVariable { name: "mana".to_string() }
    );
}

#[test]
fn req_parser_returns_malformed_for_dangling_operator() {
    let db = db_with(&["x"]);
    assert_eq!(
        parse_req("req x > 5 +", &db).unwrap_err(),
        ReqParseError::MalformedExpression { expression: "x > 5 +".to_string() }
    );
}

#[test]
fn returns_unknown_operator_for_tilde() {
    let db = db_with(&["x"]);
    assert_eq!(
        parse_req("req x ~ 5", &db).unwrap_err(),
        ReqParseError::UnknownOperator { op: "~".to_string() }
    );
}

#[test]
fn returns_not_a_req_for_unrelated_lines() {
    let db = db_with(&[]);
    assert_eq!(parse_req("Hello world", &db).unwrap_err(), ReqParseError::NotAReqStatement);
}

#[test]
fn bare_keyword_is_missing_lhs() {
    let db = db_with(&[]);
    assert_eq!(parse_req("req", &db).unwrap_err(), ReqParseError::MissingLhs);
}

#[test]
fn evaluates_compare_op() {
    assert!(ComparisonOperator::Greater.apply(2, 1));
    assert!(!ComparisonOperator::Greater.apply(1, 1));
    assert!(ComparisonOperator::GreaterOrEqual.apply(1, 1));
    assert!(ComparisonOperator::LessOrEqual.apply(1, 1));
    assert!(ComparisonOperator::Less.apply(0, 1));
    assert!(ComparisonOperator::Equal.apply(5, 5));
    assert!(!ComparisonOperator::Equal.apply(5, 4));
    assert!(ComparisonOperator::NotEqual.apply(5, 4));
    assert!(!ComparisonOperator::NotEqual.apply(5, 5));
}

#[test]
fn req_rejects_non_integer_variables() {
    let mut db = db_with(&["x"]);
    db.add_variable(Variable::new("flag".to_string(), Value::Boolean(true)));
    assert_eq!(
        parse_req("req flag > 0", &db).unwrap_err(),
        ReqParseError::NonIntegerVariable { name: "flag".to_string() }
    );
    assert_eq!(
        parse_req("req x > 1 + flag", &db).unwrap_err(),
        ReqParseError::NonIntegerVariable { name: "flag".to_string() }
    );
}

#[test]
fn req_lhs_and_operator_errors() {
    let db = db_with(&["x"]);
    assert_eq!(parse_req("req   ", &db).unwrap_err(), ReqParseError::MissingLhs);
    assert_eq!(parse_req("req > 5", &db).unwrap_err(), ReqParseError::MissingLhs);
    assert_eq!(
        parse_req("req 2x > 5", &db).unwrap_err(),
        ReqParseError::InvalidLhs { name: "2x".to_string() }
    );
    assert_eq!(
        parse_req("req x 5", &db).unwrap_err(),
        ReqParseError::MalformedExpression { expression: "x 5".to_string() }
    );
    assert_eq!(
        parse_req("req x >", &db).unwrap_err(),
        ReqParseError::MalformedExpression { expression: "x >".to_string() }
    );
    assert_eq!(
        parse_req("req x =~ 5", &db).unwrap_err(),
        ReqParseError::MalformedExpression { expression: "x =~ 5".to_string() }
    );
    assert_eq!(
        parse_req("req x ~= (5)", &db).unwrap_err(),
        ReqParseError::UnknownOperator { op: "~=".to_string() }
    );
    assert_eq!(parse_req("requirement x > 1", &db).unwrap_err(), ReqParseError::NotAReqStatement);
}

#[test]
fn req_rhs_literal_overflow_is_malformed() {
    let db = db_with(&["x"]);
    assert_eq!(
        parse_req("req x > 99999999999999999999", &db).unwrap_err(),
        ReqParseError::MalformedExpression { expression: "x > 99999999999999999999".to_string() }
    );
}
