use cuentitos_parser::database::Database;
use cuentitos_parser::model::{Value, ValueKind};
use cuentitos_parser::parsers::variables_parser::{
    evaluate_bool_default, evaluate_string_default, parse_variables_block, BoolDefaultError,
    DeclarationError, StringDefaultError, VariablesBlockOutcome,
};

fn expect_single_error(outcome: VariablesBlockOutcome) -> DeclarationError {
    assert_eq!(
        outcome.errors.len(),
        1,
        "expected exactly one error, got {:?}",
        outcome.errors
    );
    outcome.errors.into_iter().next().unwrap()
}

fn declared_from(pairs: &[(&str, Value)]) -> Vec<(String, Value)> {
    pairs
        .iter()
        .map(|(name, value)| (name.to_string(), value.clone()))
        .collect()
}

#[test]
fn parse_block_literal_default() {
    let script = "--- variables\nint five = 5\n---";
    let lines: Vec<&str> = script.lines().collect();
    let mut db = Database::new();
    let outcome = parse_variables_block(&lines, 0, &mut db, &None);
    assert!(outcome.errors.is_empty());
    assert_eq!(outcome.consumed_lines, 3);
    assert_eq!(db.variables.len(), 1);
    assert_eq!(db.variables[0].name, "five");
    assert_eq!(db.variables[0].kind(), ValueKind::Integer);
    assert_eq!(db.variables[0].default, Value::Integer(5));
}

#[test]
fn parse_block_no_default_defaults_to_zero() {
    let script = "--- variables\nint a\n---";
    let lines: Vec<&str> = script.lines().collect();
    let mut db = Database::new();
    let outcome = parse_variables_block(&lines, 0, &mut db, &None);
    assert!(outcome.errors.is_empty());
    assert_eq!(db.variables[0].default, Value::Integer(0));
}

#[test]
fn parse_block_reference_earlier() {
    let script = "--- variables\nint a = 3\nint b = a + 1\n---";
    let lines: Vec<&str> = script.lines().collect();
    let mut db = Database::new();
    let outcome = parse_variables_block(&lines, 0, &mut db, &None);
    assert!(outcome.errors.is_empty());
    assert_eq!(db.variables.len(), 2);
    assert_eq!(db.variables[1].default, Value::Integer(4));
}

#[test]
fn parse_block_unterminated() {
    let script = "--- variables\nint a = 1\n";
    let lines: Vec<&str> = script.lines().collect();
    let mut db = Database::new();
    let outcome = parse_variables_block(&lines, 0, &mut db, &None);
    match expect_single_error(outcome) {
        DeclarationError::UnterminatedVariablesBlock { line, .. } => assert_eq!(line, 1),
        other => panic!("expected UnterminatedVariablesBlock, got {:?}", other),
    }
}

#[test]
fn parse_block_duplicate_name() {
    let script = "--- variables\nint a\nint b = 1\nint a = 2\n---";
    let lines: Vec<&str> = script.lines().collect();
    let mut db = Database::new();
    let outcome = parse_variables_block(&lines, 0, &mut db, &None);
    match expect_single_error(outcome) {
        DeclarationError::DuplicateVariable {
            name,
            previous_line,
            line,
            ..
        } => {
            assert_eq!(name, "a");
            assert_eq!(previous_line, 2);
            assert_eq!(line, 4);
        }
        other => panic!("expected DuplicateVariable, got {:?}", other),
    }
}

#[test]
fn parse_block_forward_reference() {
    let script = "--- variables\nint a = b\nint b = 5\n---";
    let lines: Vec<&str> = script.lines().collect();
    let mut db = Database::new();
    let outcome = parse_variables_block(&lines, 0, &mut db, &None);
    match expect_single_error(outcome) {
        DeclarationError::ForwardVariableReference { name, line, .. } => {
            assert_eq!(name, "b");
            assert_eq!(line, 2);
        }
        other => panic!("expected ForwardVariableReference, got {:?}", other),
    }
}

#[test]
fn parse_block_self_reference_is_its_own_error() {
    let script = "--- variables\nint a = a\n---";
    let lines: Vec<&str> = script.lines().collect();
    let mut db = Database::new();
    let outcome = parse_variables_block(&lines, 0, &mut db, &None);
    match expect_single_error(outcome) {
        DeclarationError::SelfReferenceInDefault { name, line, .. } => {
            assert_eq!(name, "a");
            assert_eq!(line, 2);
        }
        other => panic!("expected SelfReferenceInDefault, got {:?}", other),
    }
}

#[test]
fn parse_block_undefined_reference() {
    let script = "--- variables\nint a = unknown\n---";
    let lines: Vec<&str> = script.lines().collect();
    let mut db = Database::new();
    let outcome = parse_variables_block(&lines, 0, &mut db, &None);
    match expect_single_error(outcome) {
        DeclarationError::UndefinedVariableReference { name, line, .. } => {
            assert_eq!(name, "unknown");
            assert_eq!(line, 2);
        }
        other => panic!("expected UndefinedVariableReference, got {:?}", other),
    }
}

#[test]
fn parse_block_invalid_identifier() {
    let script = "--- variables\nint 2foo = 1\n---";
    let lines: Vec<&str> = script.lines().collect();
    let mut db = Database::new();
    let outcome = parse_variables_block(&lines, 0, &mut db, &None);
    match expect_single_error(outcome) {
        DeclarationError::InvalidVariableName { name, line, .. } => {
            assert_eq!(name, "2foo");
            assert_eq!(line, 2);
        }
        other => panic!("expected InvalidVariableName, got {:?}", other),
    }
}

#[test]
fn parse_block_reserved_keyword_and() {
    let script = "--- variables\nint and = 1\n---";
    let lines: Vec<&str> = script.lines().collect();
    let mut db = Database::new();
    let outcome = parse_variables_block(&lines, 0, &mut db, &None);
    match expect_single_error(outcome) {
        DeclarationError::ReservedKeyword { name, line, .. } => {
            assert_eq!(name, "and");
            assert_eq!(line, 2);
        }
        other => panic!("expected ReservedKeyword, got {:?}", other),
    }
}

#[test]
fn parse_block_reserved_keyword_or() {
    let script = "--- variables\nint or = 1\n---";
    let lines: Vec<&str> = script.lines().collect();
    let mut db = Database::new();
    let outcome = parse_variables_block(&lines, 0, &mut db, &None);
    match expect_single_error(outcome) {
        DeclarationError::ReservedKeyword { name, .. } => assert_eq!(name, "or"),
        other => panic!("expected ReservedKeyword, got {:?}", other),
    }
}

#[test]
fn parse_block_reserved_keyword_not() {
    let script = "--- variables\nint not = 1\n---";
    let lines: Vec<&str> = script.lines().collect();
    let mut db = Database::new();
    let outcome = parse_variables_block(&lines, 0, &mut db, &None);
    match expect_single_error(outcome) {
        DeclarationError::ReservedKeyword { name, .. } => assert_eq!(name, "not"),
        other => panic!("expected ReservedKeyword, got {:?}", other),
    }
}

#[test]
fn parse_block_uppercase_logical_keywords_are_allowed() {
    // The reservation is for the lowercase tokens the boolean parser
    // recognizes; uppercase variants must remain ordinary identifiers.
    let script = "--- variables\nint AND = 1\nint OR = 2\nint NOT = 3\n---";
    let lines: Vec<&str> = script.lines().collect();
    let mut db = Database::new();
    let outcome = parse_variables_block(&lines, 0, &mut db, &None);
    assert!(outcome.errors.is_empty(), "errors: {:?}", outcome.errors);
}

#[test]
fn parse_block_division_by_zero() {
    let script = "--- variables\nint a = 10 / 0\n---";
    let lines: Vec<&str> = script.lines().collect();
    let mut db = Database::new();
    let outcome = parse_variables_block(&lines, 0, &mut db, &None);
    match expect_single_error(outcome) {
        DeclarationError::DivisionByZero { variable, line, .. } => {
            assert_eq!(variable, "a");
            assert_eq!(line, 2);
        }
        other => panic!("expected DivisionByZero, got {:?}", other),
    }
}

#[test]
fn parse_block_overflow_through_variable() {
    let script = "--- variables\nint big = 9223372036854775807\nint boom = big + 1\n---";
    let lines: Vec<&str> = script.lines().collect();
    let mut db = Database::new();
    let outcome = parse_variables_block(&lines, 0, &mut db, &None);
    match expect_single_error(outcome) {
        DeclarationError::IntegerOverflow { variable, line, .. } => {
            assert_eq!(variable, "boom");
            assert_eq!(line, 3);
        }
        other => panic!("expected IntegerOverflow, got {:?}", other),
    }
}

#[test]
fn parse_block_malformed_expression() {
    let script = "--- variables\nint a = 5 +\n---";
    let lines: Vec<&str> = script.lines().collect();
    let mut db = Database::new();
    let outcome = parse_variables_block(&lines, 0, &mut db, &None);
    match expect_single_error(outcome) {
        DeclarationError::MalformedDefaultExpression { expr, line, .. } => {
            assert_eq!(expr, "5 +");
            assert_eq!(line, 2);
        }
        other => panic!("expected MalformedDefaultExpression, got {:?}", other),
    }
}

#[test]
fn parse_block_indented_declaration() {
    let script = "--- variables\n  int a = 1\n---";
    let lines: Vec<&str> = script.lines().collect();
    let mut db = Database::new();
    let outcome = parse_variables_block(&lines, 0, &mut db, &None);
    match expect_single_error(outcome) {
        DeclarationError::IndentedVariableDeclaration { content, line, .. } => {
            assert_eq!(content, "int a = 1");
            assert_eq!(line, 2);
        }
        other => panic!("expected IndentedVariableDeclaration, got {:?}", other),
    }
}

#[test]
fn parse_block_missing_variable_name() {
    let script = "--- variables\nint\n---";
    let lines: Vec<&str> = script.lines().collect();
    let mut db = Database::new();
    let outcome = parse_variables_block(&lines, 0, &mut db, &None);
    match expect_single_error(outcome) {
        DeclarationError::MissingVariableName { line, .. } => assert_eq!(line, 2),
        other => panic!("expected MissingVariableName, got {:?}", other),
    }
}

#[test]
fn parse_block_i64_min_default() {
    let script = "--- variables\nint a = -9223372036854775808\n---";
    let lines: Vec<&str> = script.lines().collect();
    let mut db = Database::new();
    let outcome = parse_variables_block(&lines, 0, &mut db, &None);
    assert!(outcome.errors.is_empty());
    assert_eq!(
        db.variables[0].default,
        Value::Integer(i64::MIN)
    );
}

#[test]
fn parse_block_one_below_i64_min_surfaces_literal_overflow() {
    // Locks in the diagnostic-parity contract: a default whose
    // single offending literal exceeds the integer range surfaces
    // `DefaultLiteralOverflow` with the literal text preserved,
    // parallel to `SetLiteralOverflow` / `RequirementLiteralOverflow`.
    let script = "--- variables\nint a = -9223372036854775809\n---";
    let lines: Vec<&str> = script.lines().collect();
    let mut db = Database::new();
    let outcome = parse_variables_block(&lines, 0, &mut db, &None);
    match expect_single_error(outcome) {
        DeclarationError::DefaultLiteralOverflow {
            variable,
            literal,
            line,
            ..
        } => {
            assert_eq!(variable, "a");
            assert_eq!(literal, "-9223372036854775809");
            assert_eq!(line, 2);
        }
        other => panic!("expected DefaultLiteralOverflow, got {:?}", other),
    }
}

#[test]
fn parse_block_bare_positive_literal_overflow() {
    // A bare positive literal larger than i64::MAX (but still inside
    // u64) also surfaces as `DefaultLiteralOverflow` with the
    // literal text preserved — same shape as the set/req sibling
    // diagnostics for `99999999999999999999`.
    let script = "--- variables\nint a = 99999999999999999999\n---";
    let lines: Vec<&str> = script.lines().collect();
    let mut db = Database::new();
    let outcome = parse_variables_block(&lines, 0, &mut db, &None);
    match expect_single_error(outcome) {
        DeclarationError::DefaultLiteralOverflow {
            variable,
            literal,
            line,
            ..
        } => {
            assert_eq!(variable, "a");
            assert_eq!(literal, "99999999999999999999");
            assert_eq!(line, 2);
        }
        other => panic!("expected DefaultLiteralOverflow, got {:?}", other),
    }
}

#[test]
fn parse_block_multiplication_overflow() {
    // Binary overflow at fold time (no single offending literal)
    // routes to the generic `IntegerOverflow` variant — distinct
    // from `DefaultLiteralOverflow`. The pre-existing
    // `parse_block_overflow_through_variable` test covers the
    // addition case; this one pins multiplication so the shared
    // body's `checked_mul` path is also locked in.
    let script = "--- variables\nint big = 4611686018427387904\nint boom = big * 3\n---";
    let lines: Vec<&str> = script.lines().collect();
    let mut db = Database::new();
    let outcome = parse_variables_block(&lines, 0, &mut db, &None);
    match expect_single_error(outcome) {
        DeclarationError::IntegerOverflow { variable, line, .. } => {
            assert_eq!(variable, "boom");
            assert_eq!(line, 3);
        }
        other => panic!("expected IntegerOverflow, got {:?}", other),
    }
}

#[test]
fn parse_block_deep_unary_minus_fails_cleanly() {
    // 200 leading `-`s would stack-overflow the parser without the
    // shared body's recursion cap. The cap surfaces as
    // `ExpressionTooDeep` inside the arithmetic body, which the set-
    // side mapper folds into `Malformed` — so the variables-default
    // path sees a `MalformedDefaultExpression`. Same fail-cleanly
    // contract as the set side; the test pins behavior, not message.
    let mut expr = String::new();
    for _ in 0..200 {
        expr.push('-');
    }
    expr.push('1');
    let script = format!("--- variables\nint a = {}\n---", expr);
    let lines: Vec<&str> = script.lines().collect();
    let mut db = Database::new();
    let outcome = parse_variables_block(&lines, 0, &mut db, &None);
    match expect_single_error(outcome) {
        DeclarationError::MalformedDefaultExpression { line, .. } => {
            assert_eq!(line, 2);
        }
        other => panic!("expected MalformedDefaultExpression, got {:?}", other),
    }
}

#[test]
fn parse_block_deep_paren_nesting_fails_cleanly() {
    // 200 nested `(`s exercise the LParen recursion in the shared
    // arithmetic body. Same fail-cleanly contract as the unary-minus
    // chain above.
    let mut expr = String::new();
    for _ in 0..200 {
        expr.push('(');
    }
    expr.push('1');
    for _ in 0..200 {
        expr.push(')');
    }
    let script = format!("--- variables\nint a = {}\n---", expr);
    let lines: Vec<&str> = script.lines().collect();
    let mut db = Database::new();
    let outcome = parse_variables_block(&lines, 0, &mut db, &None);
    match expect_single_error(outcome) {
        DeclarationError::MalformedDefaultExpression { line, .. } => {
            assert_eq!(line, 2);
        }
        other => panic!("expected MalformedDefaultExpression, got {:?}", other),
    }
}

#[test]
fn eval_bool_literal_true_and_false() {
    let declared: Vec<(String, Value)> = Vec::new();
    let future: Vec<String> = Vec::new();
    assert_eq!(
        evaluate_bool_default("true", "b", &declared, &future),
        Ok(true)
    );
    assert_eq!(
        evaluate_bool_default("false", "b", &declared, &future),
        Ok(false)
    );
}

#[test]
fn eval_bool_reference_to_earlier_bool() {
    let declared = declared_from(&[("source", Value::Boolean(true))]);
    let future: Vec<String> = Vec::new();
    assert_eq!(
        evaluate_bool_default("source", "mirror", &declared, &future),
        Ok(true)
    );
}

#[test]
fn eval_bool_int_literal_is_type_mismatch() {
    let declared: Vec<(String, Value)> = Vec::new();
    let future: Vec<String> = Vec::new();
    assert_eq!(
        evaluate_bool_default("1", "b", &declared, &future),
        Err(BoolDefaultError::TypeMismatch {
            token: "1".to_string(),
            found: ValueKind::Integer,
        })
    );
}

#[test]
fn eval_bool_reference_to_int_is_type_mismatch() {
    let declared = declared_from(&[("count", Value::Integer(3))]);
    let future: Vec<String> = Vec::new();
    assert_eq!(
        evaluate_bool_default("count", "b", &declared, &future),
        Err(BoolDefaultError::TypeMismatch {
            token: "count".to_string(),
            found: ValueKind::Integer,
        })
    );
}

#[test]
fn eval_bool_logical_operators_are_rejected() {
    let declared: Vec<(String, Value)> = Vec::new();
    let future: Vec<String> = Vec::new();
    for expr in ["not true", "true or false", "true and false"] {
        assert_eq!(
            evaluate_bool_default(expr, "b", &declared, &future),
            Err(BoolDefaultError::LogicalOperator),
            "expr: {expr}"
        );
    }
}

#[test]
fn eval_bool_uppercase_logical_words_are_ordinary_identifiers() {
    // `AND`/`OR`/`NOT` are not reserved; as a lone reference they resolve
    // like any other identifier (here: undefined), never as an operator.
    let declared: Vec<(String, Value)> = Vec::new();
    let future: Vec<String> = Vec::new();
    assert_eq!(
        evaluate_bool_default("AND", "b", &declared, &future),
        Err(BoolDefaultError::UndefinedReference {
            name: "AND".to_string()
        })
    );
}

#[test]
fn eval_bool_self_reference() {
    let declared: Vec<(String, Value)> = Vec::new();
    let future: Vec<String> = Vec::new();
    assert_eq!(
        evaluate_bool_default("a", "a", &declared, &future),
        Err(BoolDefaultError::SelfReference)
    );
}

#[test]
fn eval_bool_forward_reference() {
    let declared: Vec<(String, Value)> = Vec::new();
    let future: Vec<String> = vec!["b".to_string()];
    assert_eq!(
        evaluate_bool_default("b", "a", &declared, &future),
        Err(BoolDefaultError::ForwardReference {
            name: "b".to_string()
        })
    );
}

#[test]
fn parse_block_bool_literal_defaults() {
    let script = "--- variables\nbool t = true\nbool f = false\n---";
    let lines: Vec<&str> = script.lines().collect();
    let mut db = Database::new();
    let outcome = parse_variables_block(&lines, 0, &mut db, &None);
    assert!(outcome.errors.is_empty(), "errors: {:?}", outcome.errors);
    assert_eq!(db.variables[0].default, Value::Boolean(true));
    assert_eq!(db.variables[0].kind(), ValueKind::Boolean);
    assert_eq!(db.variables[1].default, Value::Boolean(false));
}

#[test]
fn parse_block_bool_no_default_is_false() {
    let script = "--- variables\nbool a\n---";
    let lines: Vec<&str> = script.lines().collect();
    let mut db = Database::new();
    let outcome = parse_variables_block(&lines, 0, &mut db, &None);
    assert!(outcome.errors.is_empty());
    assert_eq!(db.variables[0].default, Value::Boolean(false));
}

#[test]
fn parse_block_bool_reference_earlier() {
    let script = "--- variables\nbool source = true\nbool mirror = source\n---";
    let lines: Vec<&str> = script.lines().collect();
    let mut db = Database::new();
    let outcome = parse_variables_block(&lines, 0, &mut db, &None);
    assert!(outcome.errors.is_empty());
    assert_eq!(db.variables[1].default, Value::Boolean(true));
}

#[test]
fn parse_block_bool_int_interleaved_preserves_order_and_kinds() {
    let script = "--- variables\nint a = 1\nbool b = true\nint c\nbool d\n---";
    let lines: Vec<&str> = script.lines().collect();
    let mut db = Database::new();
    let outcome = parse_variables_block(&lines, 0, &mut db, &None);
    assert!(outcome.errors.is_empty());
    let kinds: Vec<_> = db
        .variables
        .iter()
        .map(|v| (v.name.as_str(), &v.default))
        .collect();
    assert_eq!(
        kinds,
        vec![
            ("a", &Value::Integer(1)),
            ("b", &Value::Boolean(true)),
            ("c", &Value::Integer(0)),
            ("d", &Value::Boolean(false)),
        ]
    );
}

#[test]
fn parse_block_bool_default_not_bool_literal() {
    let script = "--- variables\nbool b = 1\n---";
    let lines: Vec<&str> = script.lines().collect();
    let mut db = Database::new();
    let outcome = parse_variables_block(&lines, 0, &mut db, &None);
    match expect_single_error(outcome) {
        DeclarationError::DefaultTypeMismatch {
            variable,
            expected,
            found_token,
            found,
            line,
            ..
        } => {
            assert_eq!(variable, "b");
            assert_eq!(expected, ValueKind::Boolean);
            assert_eq!(found_token, "1");
            assert_eq!(found, ValueKind::Integer);
            assert_eq!(line, 2);
        }
        other => panic!("expected DefaultTypeMismatch, got {:?}", other),
    }
}

#[test]
fn parse_block_bool_default_references_non_bool() {
    let script = "--- variables\nint count = 3\nbool b = count\n---";
    let lines: Vec<&str> = script.lines().collect();
    let mut db = Database::new();
    let outcome = parse_variables_block(&lines, 0, &mut db, &None);
    match expect_single_error(outcome) {
        DeclarationError::DefaultTypeMismatch {
            variable,
            found_token,
            found,
            line,
            ..
        } => {
            assert_eq!(variable, "b");
            assert_eq!(found_token, "count");
            assert_eq!(found, ValueKind::Integer);
            assert_eq!(line, 3);
        }
        other => panic!("expected DefaultTypeMismatch, got {:?}", other),
    }
}

#[test]
fn parse_block_int_default_references_earlier_bool() {
    // The inverse of `parse_block_bool_default_references_non_bool`: an
    // `int` default referencing an earlier `bool` must report a type
    // mismatch — not a forward/undefined reference, since the bool is
    // declared on the previous line.
    let script = "--- variables\nbool flag = true\nint x = flag\n---";
    let lines: Vec<&str> = script.lines().collect();
    let mut db = Database::new();
    let outcome = parse_variables_block(&lines, 0, &mut db, &None);
    match expect_single_error(outcome) {
        DeclarationError::DefaultTypeMismatch {
            variable,
            expected,
            found_token,
            found,
            line,
            ..
        } => {
            assert_eq!(variable, "x");
            assert_eq!(expected, ValueKind::Integer);
            assert_eq!(found_token, "flag");
            assert_eq!(found, ValueKind::Boolean);
            assert_eq!(line, 3);
        }
        other => panic!("expected DefaultTypeMismatch, got {:?}", other),
    }
}

#[test]
fn parse_block_bool_logical_operator_in_default() {
    let script = "--- variables\nbool b = true or false\n---";
    let lines: Vec<&str> = script.lines().collect();
    let mut db = Database::new();
    let outcome = parse_variables_block(&lines, 0, &mut db, &None);
    match expect_single_error(outcome) {
        DeclarationError::LogicalOperatorInDefault { line, .. } => assert_eq!(line, 2),
        other => panic!("expected LogicalOperatorInDefault, got {:?}", other),
    }
}

#[test]
fn parse_block_bool_forward_reference() {
    let script = "--- variables\nbool a = b\nbool b = true\n---";
    let lines: Vec<&str> = script.lines().collect();
    let mut db = Database::new();
    let outcome = parse_variables_block(&lines, 0, &mut db, &None);
    match expect_single_error(outcome) {
        DeclarationError::ForwardVariableReference { name, line, .. } => {
            assert_eq!(name, "b");
            assert_eq!(line, 2);
        }
        other => panic!("expected ForwardVariableReference, got {:?}", other),
    }
}

#[test]
fn parse_block_bool_reserved_keyword() {
    let script = "--- variables\nbool and = true\n---";
    let lines: Vec<&str> = script.lines().collect();
    let mut db = Database::new();
    let outcome = parse_variables_block(&lines, 0, &mut db, &None);
    match expect_single_error(outcome) {
        DeclarationError::ReservedKeyword { name, line, .. } => {
            assert_eq!(name, "and");
            assert_eq!(line, 2);
        }
        other => panic!("expected ReservedKeyword, got {:?}", other),
    }
}

#[test]
fn parse_block_duplicate_name_across_types() {
    let script = "--- variables\nint x\nbool x = true\n---";
    let lines: Vec<&str> = script.lines().collect();
    let mut db = Database::new();
    let outcome = parse_variables_block(&lines, 0, &mut db, &None);
    match expect_single_error(outcome) {
        DeclarationError::DuplicateVariable {
            name,
            previous_line,
            line,
            ..
        } => {
            assert_eq!(name, "x");
            assert_eq!(previous_line, 2);
            assert_eq!(line, 3);
        }
        other => panic!("expected DuplicateVariable, got {:?}", other),
    }
}

#[test]
fn parse_block_bool_missing_name() {
    let script = "--- variables\nbool\n---";
    let lines: Vec<&str> = script.lines().collect();
    let mut db = Database::new();
    let outcome = parse_variables_block(&lines, 0, &mut db, &None);
    match expect_single_error(outcome) {
        DeclarationError::MissingVariableName { line, .. } => assert_eq!(line, 2),
        other => panic!("expected MissingVariableName, got {:?}", other),
    }
}

#[test]
fn eval_string_literal_default() {
    let declared: Vec<(String, Value)> = Vec::new();
    let future: Vec<String> = Vec::new();
    assert_eq!(
        evaluate_string_default("\"Aria\"", "name", &declared, &future),
        Ok("Aria".to_string())
    );
}

#[test]
fn eval_string_escapes_unescape_to_value() {
    let declared: Vec<(String, Value)> = Vec::new();
    let future: Vec<String> = Vec::new();
    assert_eq!(
        evaluate_string_default("\"a\\nb\"", "s", &declared, &future),
        Ok("a\nb".to_string())
    );
    assert_eq!(
        evaluate_string_default("\"She said \\\"hi\\\"\"", "s", &declared, &future),
        Ok("She said \"hi\"".to_string())
    );
    assert_eq!(
        evaluate_string_default("\"a\\\\b\"", "s", &declared, &future),
        Ok("a\\b".to_string())
    );
}

#[test]
fn eval_string_empty_literal() {
    let declared: Vec<(String, Value)> = Vec::new();
    let future: Vec<String> = Vec::new();
    assert_eq!(
        evaluate_string_default("\"\"", "s", &declared, &future),
        Ok(String::new())
    );
}

#[test]
fn eval_string_reference_to_earlier_string() {
    let declared = declared_from(&[("hero", Value::String("Aria".to_string()))]);
    let future: Vec<String> = Vec::new();
    assert_eq!(
        evaluate_string_default("hero", "echo", &declared, &future),
        Ok("Aria".to_string())
    );
}

#[test]
fn eval_string_unterminated_literal() {
    let declared: Vec<(String, Value)> = Vec::new();
    let future: Vec<String> = Vec::new();
    assert_eq!(
        evaluate_string_default("\"Aria", "name", &declared, &future),
        Err(StringDefaultError::UnterminatedLiteral)
    );
}

#[test]
fn eval_string_invalid_escape() {
    let declared: Vec<(String, Value)> = Vec::new();
    let future: Vec<String> = Vec::new();
    assert_eq!(
        evaluate_string_default("\"a\\qb\"", "name", &declared, &future),
        Err(StringDefaultError::InvalidEscape {
            sequence: "\\q".to_string(),
        })
    );
}

#[test]
fn eval_string_concatenation_is_malformed() {
    let declared: Vec<(String, Value)> = Vec::new();
    let future: Vec<String> = Vec::new();
    assert_eq!(
        evaluate_string_default("\"Hello, \" + \"world\"", "g", &declared, &future),
        Err(StringDefaultError::Malformed)
    );
}

#[test]
fn eval_string_reference_to_non_string_is_type_mismatch() {
    let declared = declared_from(&[("count", Value::Integer(7))]);
    let future: Vec<String> = Vec::new();
    assert_eq!(
        evaluate_string_default("count", "name", &declared, &future),
        Err(StringDefaultError::TypeMismatch {
            token: "count".to_string(),
            found: ValueKind::Integer,
        })
    );
}

#[test]
fn eval_string_forward_reference() {
    let declared: Vec<(String, Value)> = Vec::new();
    let future: Vec<String> = vec!["b".to_string()];
    assert_eq!(
        evaluate_string_default("b", "a", &declared, &future),
        Err(StringDefaultError::ForwardReference {
            name: "b".to_string(),
        })
    );
}

#[test]
fn eval_string_undefined_reference() {
    let declared: Vec<(String, Value)> = Vec::new();
    let future: Vec<String> = Vec::new();
    assert_eq!(
        evaluate_string_default("unknown", "a", &declared, &future),
        Err(StringDefaultError::UndefinedReference {
            name: "unknown".to_string(),
        })
    );
}

#[test]
fn parse_block_string_literal_default() {
    let script = "--- variables\nstring name = \"Aria\"\n---";
    let lines: Vec<&str> = script.lines().collect();
    let mut db = Database::new();
    let outcome = parse_variables_block(&lines, 0, &mut db, &None);
    assert!(outcome.errors.is_empty(), "errors: {:?}", outcome.errors);
    assert_eq!(db.variables[0].name, "name");
    assert_eq!(db.variables[0].kind(), ValueKind::String);
    assert_eq!(db.variables[0].default, Value::String("Aria".to_string()));
}

#[test]
fn parse_block_string_no_default_is_empty() {
    let script = "--- variables\nstring name\n---";
    let lines: Vec<&str> = script.lines().collect();
    let mut db = Database::new();
    let outcome = parse_variables_block(&lines, 0, &mut db, &None);
    assert!(outcome.errors.is_empty());
    assert_eq!(db.variables[0].default, Value::String(String::new()));
}

#[test]
fn parse_block_string_unterminated_literal_display() {
    let script = "--- variables\nstring name = \"Aria\n---";
    let lines: Vec<&str> = script.lines().collect();
    let mut db = Database::new();
    let outcome = parse_variables_block(&lines, 0, &mut db, &None);
    match expect_single_error(outcome) {
        DeclarationError::UnterminatedStringLiteral { line, .. } => assert_eq!(line, 2),
        other => panic!("expected UnterminatedStringLiteral, got {:?}", other),
    }
}

#[test]
fn parse_block_string_invalid_escape_display() {
    let script = "--- variables\nstring name = \"a\\qb\"\n---";
    let lines: Vec<&str> = script.lines().collect();
    let mut db = Database::new();
    let outcome = parse_variables_block(&lines, 0, &mut db, &None);
    match expect_single_error(outcome) {
        DeclarationError::InvalidEscapeSequence { sequence, line, .. } => {
            assert_eq!(sequence, "\\q");
            assert_eq!(line, 2);
        }
        other => panic!("expected InvalidEscapeSequence, got {:?}", other),
    }
}

fn parse(script: &str) -> (VariablesBlockOutcome, Database) {
    let lines: Vec<&str> = script.lines().collect();
    let mut db = Database::new();
    let outcome = parse_variables_block(&lines, 0, &mut db, &None);
    (outcome, db)
}

#[test]
fn parse_block_enum_declaration_lists_variants() {
    let (outcome, db) = parse("--- variables\nenum mood = happy , sad,angry\n---");
    assert!(outcome.errors.is_empty(), "errors: {:?}", outcome.errors);
    assert_eq!(outcome.consumed_lines, 3);
    assert_eq!(db.variables[0].name, "mood");
    assert_eq!(db.variables[0].kind(), ValueKind::Enum);
    assert_eq!(
        db.variables[0].default,
        Value::EnumUnset { variants: "happy,sad,angry".to_string() }
    );
}

#[test]
fn parse_block_enum_errors() {
    let cases: Vec<(&str, DeclarationError)> = vec![
        (
            "enum mood happy, sad",
            DeclarationError::EnumMissingEquals { name: "mood".to_string(), file: None, line: 2 },
        ),
        (
            "enum mood =",
            DeclarationError::EnumEmptyValueList { name: "mood".to_string(), file: None, line: 2 },
        ),
        (
            "enum mood = happy,,sad",
            DeclarationError::EnumEmptyValue { name: "mood".to_string(), file: None, line: 2 },
        ),
        (
            "enum mood = happy, 2sad",
            DeclarationError::EnumInvalidValue { value: "2sad".to_string(), file: None, line: 2 },
        ),
        (
            "enum mood = happy, not",
            DeclarationError::EnumReservedKeywordValue { keyword: "not".to_string(), file: None, line: 2 },
        ),
        (
            "enum mood = happy, sad, happy",
            DeclarationError::EnumDuplicateValue {
                value: "happy".to_string(),
                enum_name: "mood".to_string(),
                file: None,
                line: 2,
            },
        ),
        (
            "enum = happy",
            DeclarationError::MissingVariableName { file: None, line: 2 },
        ),
        (
            "enum or = a, b",
            DeclarationError::ReservedKeyword { name: "or".to_string(), file: None, line: 2 },
        ),
    ];
    for (line, expected) in cases {
        let script = format!("--- variables\n{}\n---", line);
        let (outcome, db) = parse(&script);
        assert_eq!(expect_single_error(outcome), expected, "line: {}", line);
        assert!(db.variables.is_empty());
    }
}

#[test]
fn parse_block_int_default_referencing_enum_is_type_mismatch() {
    let (outcome, _) = parse("--- variables\nenum mood = happy, sad\nint x = mood\n---");
    assert_eq!(
        expect_single_error(outcome),
        DeclarationError::DefaultTypeMismatch {
            variable: "x".to_string(),
            expected: ValueKind::Integer,
            found_token: "mood".to_string(),
            found: ValueKind::Enum,
            file: None,
            line: 3,
        }
    );
}

#[test]
fn parse_block_malformed_and_blank_lines() {
    let (outcome, db) = parse("--- variables\n\nint a = 1\n   \nnumber b\n---\nHello");
    assert_eq!(outcome.consumed_lines, 6);
    assert_eq!(
        expect_single_error(outcome),
        DeclarationError::MalformedVariableDeclaration { content: "number b".to_string(), file: None, line: 5 }
    );
    // Declarations before the faulty line are kept.
    assert_eq!(db.variables.len(), 1);
    assert_eq!(db.variables[0].default, Value::Integer(1));
}

#[test]
fn parse_block_unterminated_consumes_the_rest_and_names_the_file() {
    let lines = vec!["Hello", "--- variables", "int a = 1", "int b = 2"];
    let mut db = Database::new();
    let outcome = parse_variables_block(&lines, 1, &mut db, &Some("story.cuentitos".to_string()));
    assert_eq!(outcome.consumed_lines, 3);
    assert_eq!(
        outcome.errors,
        vec![DeclarationError::UnterminatedVariablesBlock { file: Some("story.cuentitos".to_string()), line: 2 }]
    );
    assert!(db.variables.is_empty());
}

#[test]
fn parse_block_stops_at_first_error_and_spans_the_block() {
    let (outcome, db) = parse("--- variables\nint a = 1\nint b = c\nint zz zz\n---");
    assert_eq!(outcome.consumed_lines, 5);
    assert_eq!(
        expect_single_error(outcome),
        DeclarationError::UndefinedVariableReference { name: "c".to_string(), file: None, line: 3 }
    );
    assert_eq!(db.variables.len(), 1);
}

#[test]
fn parse_block_string_reference_and_self_reference() {
    let (outcome, db) = parse("--- variables\nstring hero = \"Aria\"\nstring echo = hero\n---");
    assert!(outcome.errors.is_empty());
    assert_eq!(db.variables[1].default, Value::String("Aria".to_string()));
    let (outcome, _) = parse("--- variables\nstring s = s\n---");
    assert_eq!(
        expect_single_error(outcome),
        DeclarationError::ForwardVariableReference { name: "s".to_string(), file: None, line: 2 }
    );
}

#[test]
fn parse_block_string_concatenation_is_malformed() {
    let (outcome, _) = parse("--- variables\nstring g = \"a\" + \"b\"\n---");
    assert_eq!(
        expect_single_error(outcome),
        DeclarationError::MalformedDefaultExpression { expr: "\"a\" + \"b\"".to_string(), file: None, line: 2 }
    );
}

#[test]
fn parse_block_existing_variables_are_kept() {
    let lines = vec!["--- variables", "int a = 2", "---"];
    let mut db = Database::new();
    let first = parse_variables_block(&lines, 0, &mut db, &None);
    assert!(first.errors.is_empty());
    let more = vec!["--- variables", "bool b", "---"];
    let second = parse_variables_block(&more, 0, &mut db, &None);
    assert!(second.errors.is_empty());
    assert_eq!(db.variables.len(), 2);
    assert_eq!(db.variables[0].name, "a");
    assert_eq!(db.variables[1].name, "b");
}
