use cuentitos_parser::database::{Database, Variable};
use cuentitos_parser::model::{AssignmentOperator, BinaryOperator, Expression, Value, ValueKind};
use cuentitos_parser::parsers::set_parser::{parse_set, SetParseError};
use cuentitos_parser::parsers::type_inference::infer_type;

fn db_with(vars: &[&str]) -> Database {
    let mut db = Database::new();
    for name in vars {
        db.add_variable(Variable::new(name.to_string(), Value::Integer(0)));
    }
    db
}

fn db_with_string(name: &str) -> Database {
    let mut db = Database::new();
    db.add_variable(Variable::new(name.to_string(), Value::String(String::new())));
    db
}

#[test]
fn parses_plain_assignment() {
    let db = db_with(&["x"]);
    let parsed = parse_set("set x = 5", &db).unwrap();
    assert_eq!(parsed.variable_id, 0);
    assert_eq!(parsed.operator, AssignmentOperator::Assign);
    assert_eq!(parsed.expression, Expression::Literal(Value::Integer(5)));
}

#[test]
fn parses_compound_assignment() {
    let db = db_with(&["x"]);
    for (input, expected_operator) in [
        ("set x += 1", AssignmentOperator::AddAssign),
        ("set x -= 1", AssignmentOperator::SubtractAssign),
        ("set x *= 1", AssignmentOperator::MultiplyAssign),
        ("set x /= 1", AssignmentOperator::DivideAssign),
    ] {
        let parsed = parse_set(input, &db).unwrap();
        assert_eq!(parsed.operator, expected_operator, "input: {input}");
    }
}

#[test]
fn parses_compound_with_no_whitespace() {
    let db = db_with(&["x"]);
    let parsed = parse_set("set x+=1", &db).unwrap();
    assert_eq!(parsed.operator, AssignmentOperator::AddAssign);
    assert_eq!(parsed.expression, Expression::Literal(Value::Integer(1)));
}

#[test]
fn set_parser_returns_undefined_for_lhs() {
    let db = db_with(&["other"]);
    let err = parse_set("set unknown = 1", &db).unwrap_err();
    assert_eq!(err, SetParseError::UndefinedVariable { name: "unknown".to_string() });
}

#[test]
fn returns_undefined_for_rhs_variable() {
    let db = db_with(&["score"]);
    let err = parse_set("set score = health + 1", &db).unwrap_err();
    assert_eq!(err, SetParseError::UndefinedVariable { name: "health".to_string() });
}

#[test]
fn set_parser_returns_malformed_for_dangling_operator() {
    let db = db_with(&["x"]);
    let err = parse_set("set x = 5 +", &db).unwrap_err();
    assert_eq!(err, SetParseError::MalformedExpression { expression: "5 +".to_string() });
}

#[test]
fn returns_literal_overflow_for_positive_literal() {
    let db = db_with(&["x"]);
    assert_eq!(
        parse_set("set x = 99999999999999999999", &db).unwrap_err(),
        SetParseError::LiteralOverflow { literal: "99999999999999999999".to_string() }
    );
}

#[test]
fn returns_literal_overflow_for_negative_literal() {
    let db = db_with(&["x"]);
    assert_eq!(
        parse_set("set x = -9223372036854775809", &db).unwrap_err(),
        SetParseError::LiteralOverflow { literal: "-9223372036854775809".to_string() }
    );
}

#[test]
fn returns_literal_overflow_for_positive_one_above_i64_max() {
    let db = db_with(&["x"]);
    assert_eq!(
        parse_set("set x = 9223372036854775808", &db).unwrap_err(),
        SetParseError::LiteralOverflow { literal: "9223372036854775808".to_string() }
    );
}

#[test]
fn negative_literal_rhs_parses() {
    let db = db_with(&["x"]);
    let parsed = parse_set("set x = -50", &db).unwrap();
    assert_eq!(parsed.expression, Expression::Literal(Value::Integer(-50)));
}

#[test]
fn set_parser_tab_after_keyword_parses() {
    let db = db_with(&["x"]);
    let parsed = parse_set("set\tx = 5", &db).unwrap();
    assert_eq!(parsed.variable_id, 0);
    assert_eq!(parsed.expression, Expression::Literal(Value::Integer(5)));
}

#[test]
fn string_literal_rhs_parses() {
    let db = db_with_string("name");
    let parsed = parse_set("set name = \"Brenn\"", &db).unwrap();
    assert_eq!(parsed.operator, AssignmentOperator::Assign);
    assert_eq!(parsed.expression, Expression::Literal(Value::String("Brenn".to_string())));
}

#[test]
fn string_literal_rhs_unescapes() {
    let db = db_with_string("line");
    let parsed = parse_set("set line = \"x\\ny\\\\z\\\"w\"", &db).unwrap();
    assert_eq!(parsed.expression, Expression::Literal(Value::String("x\ny\\z\"w".to_string())));
}

#[test]
fn empty_string_literal_rhs_parses() {
    let db = db_with_string("name");
    let parsed = parse_set("set name = \"\"", &db).unwrap();
    assert_eq!(parsed.expression, Expression::Literal(Value::String(String::new())));
}

#[test]
fn string_variable_rhs_parses_as_reference() {
    let mut db = db_with_string("target");
    db.add_variable(Variable::new("source".to_string(), Value::String("Aria".to_string())));
    let parsed = parse_set("set target = source", &db).unwrap();
    assert_eq!(parsed.variable_id, 0);
    assert_eq!(parsed.expression, Expression::Variable(1));
}

#[test]
fn unterminated_string_literal_rhs_is_rejected() {
    let db = db_with_string("name");
    assert_eq!(parse_set("set name = \"Brenn", &db).unwrap_err(), SetParseError::UnterminatedStringLiteral);
}

#[test]
fn invalid_escape_in_string_literal_rhs_is_rejected() {
    let db = db_with_string("name");
    assert_eq!(
        parse_set("set name = \"a\\qb\"", &db).unwrap_err(),
        SetParseError::InvalidStringEscape { sequence: "\\q".to_string() }
    );
}

#[test]
fn trailing_token_after_string_literal_is_malformed() {
    let db = db_with_string("name");
    assert_eq!(
        parse_set("set name = \"a\" \"b\"", &db).unwrap_err(),
        SetParseError::MalformedExpression { expression: "\"a\" \"b\"".to_string() }
    );
    assert_eq!(
        parse_set("set name = \"Hello, \" + \"world\"", &db).unwrap_err(),
        SetParseError::MalformedExpression { expression: "\"Hello, \" + \"world\"".to_string() }
    );
}

#[test]
fn int_literal_rhs_of_string_set_is_a_type_mismatch() {
    let db = db_with_string("name");
    assert_eq!(
        parse_set("set name = 1", &db).unwrap_err(),
        SetParseError::StringTypeMismatch {
            variable: "name".to_string(),
            found_token: "'1'".to_string(),
            found: ValueKind::Integer,
        }
    );
}

#[test]
fn int_variable_rhs_of_string_set_is_a_type_mismatch() {
    let mut db = db_with_string("name");
    db.add_variable(Variable::new("count".to_string(), Value::Integer(3)));
    assert_eq!(
        parse_set("set name = count", &db).unwrap_err(),
        SetParseError::StringTypeMismatch {
            variable: "name".to_string(),
            found_token: "count".to_string(),
            found: ValueKind::Integer,
        }
    );
}

#[test]
fn undeclared_variable_rhs_of_string_set_is_undefined() {
    let db = db_with_string("name");
    assert_eq!(
        parse_set("set name = ghost", &db).unwrap_err(),
        SetParseError::UndefinedVariable { name: "ghost".to_string() }
    );
}

#[test]
fn compound_assignment_on_string_is_rejected() {
    let db = db_with_string("name");
    assert_eq!(
        parse_set("set name += \"Brenn\"", &db).unwrap_err(),
        SetParseError::CompoundAssignmentUnsupported { operator: AssignmentOperator::AddAssign, kind: ValueKind::String }
    );
}

#[test]
fn bool_set_type_mismatch_names_both_kinds() {
    let mut db = Database::new();
    db.add_variable(Variable::new("flag".to_string(), Value::Boolean(false)));
    assert_eq!(
        parse_set("set flag = 1", &db).unwrap_err(),
        SetParseError::TypeMismatch { variable: "flag".to_string(), expected: ValueKind::Boolean, found: ValueKind::Integer }
    );
}

#[test]
fn missing_rhs_is_reported() {
    let db = db_with(&["x"]);
    assert_eq!(parse_set("set x = ", &db).unwrap_err(), SetParseError::MissingRhs);
}

#[test]
fn integer_literal_infers_integer() {
    let db = Database::new();
    let expression = Expression::Literal(Value::Integer(7));
    assert_eq!(infer_type(&expression, &db).unwrap(), ValueKind::Integer);
}

#[test]
fn integer_variable_infers_integer() {
    let db = db_with(&["x"]);
    let expression = Expression::Variable(0);
    assert_eq!(infer_type(&expression, &db).unwrap(), ValueKind::Integer);
}

#[test]
fn integer_arithmetic_infers_integer() {
    let db = db_with(&["x"]);
    let expression = Expression::Binary {
        operator: BinaryOperator::Add,
        left: Box::new(Expression::Variable(0)),
        right: Box::new(Expression::Literal(Value::Integer(1))),
    };
    assert_eq!(infer_type(&expression, &db).unwrap(), ValueKind::Integer);
}
