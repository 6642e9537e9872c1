use cuentitos_parser::boolean_expression::{
    parse_boolean_expression, BooleanParseError, LogicalKeyword, MAX_EXPRESSION_DEPTH,
};
use cuentitos_parser::model::{
    BinaryOperator, BooleanExpression, ComparisonOperator, Expression, RequirementStatement, Value,
};

type VariableId = usize;

/// Declares the names in order, so that each resolves to its position.
fn parse(input: &str, vars: &[(&str, VariableId)]) -> Result<BooleanExpression, BooleanParseError> {
    let mut declared: Vec<(String, i64)> = Vec::new();
    for (name, id) in vars {
        assert_eq!(*id, declared.len());
        declared.push((name.to_string(), 0));
    }
    parse_boolean_expression(input, &declared)
}

#[test]
fn parses_single_comparison() {
    let result = parse("x > 0", &[("x", 0)]).unwrap();
    match result {
        BooleanExpression::Comparison(stmt) => {
            assert_eq!(stmt.operator, ComparisonOperator::Greater);
        }
        _ => panic!("expected Comparison"),
    }
}

#[test]
fn parses_and() {
    let result = parse("x > 0 and y > 0", &[("x", 0), ("y", 1)]).unwrap();
    assert!(matches!(result, BooleanExpression::And(_, _)));
}

#[test]
fn parses_or() {
    let result = parse("x > 0 or y > 0", &[("x", 0), ("y", 1)]).unwrap();
    assert!(matches!(result, BooleanExpression::Or(_, _)));
}

#[test]
fn parses_not() {
    let result = parse("not x > 0", &[("x", 0)]).unwrap();
    assert!(matches!(result, BooleanExpression::Not(_)));
}

#[test]
fn and_binds_tighter_than_or() {
    // a or b and c should parse as a or (b and c)
    let result = parse("a > 0 or b > 0 and c > 0", &[("a", 0), ("b", 1), ("c", 2)]).unwrap();
    match result {
        BooleanExpression::Or(_, right) => {
            assert!(matches!(*right, BooleanExpression::And(_, _)));
        }
        _ => panic!("expected Or at top, got {:?}", result),
    }
}

#[test]
fn parens_override_precedence() {
    // (a or b) and c
    let result = parse(
        "(a > 0 or b > 0) and c > 0",
        &[("a", 0), ("b", 1), ("c", 2)],
    )
    .unwrap();
    match result {
        BooleanExpression::And(left, _) => {
            assert!(matches!(*left, BooleanExpression::Or(_, _)));
        }
        _ => panic!("expected And at top"),
    }
}

#[test]
fn not_binds_tighter_than_and() {
    // not a > 0 and b > 0 → (not (a > 0)) and (b > 0)
    let result = parse("not a > 0 and b > 0", &[("a", 0), ("b", 1)]).unwrap();
    match result {
        BooleanExpression::And(left, _) => {
            assert!(matches!(*left, BooleanExpression::Not(_)));
        }
        _ => panic!("expected And at top"),
    }
}

#[test]
fn arithmetic_lhs_with_parens() {
    // (a + b) > 0 — paren is part of arith LHS
    let result = parse("(a + b) > 0", &[("a", 0), ("b", 1)]).unwrap();
    match result {
        BooleanExpression::Comparison(stmt) => {
            assert_eq!(stmt.operator, ComparisonOperator::Greater);
            assert!(matches!(stmt.left, Expression::Binary { .. }));
        }
        _ => panic!("expected Comparison"),
    }
}

#[test]
fn arithmetic_lhs_with_parens_then_more_arithmetic() {
    // (a + b) + 1 > c — leading paren opens arith LHS, then `+ 1`
    // continues the same arithmetic expression before the comparison.
    let result = parse("(a + b) + 1 > c", &[("a", 0), ("b", 1), ("c", 2)]).unwrap();
    match result {
        BooleanExpression::Comparison(stmt) => {
            assert_eq!(stmt.operator, ComparisonOperator::Greater);
            assert!(matches!(stmt.left, Expression::Binary { .. }));
            assert_eq!(stmt.right, Expression::Variable(2));
        }
        _ => panic!("expected Comparison"),
    }
}

#[test]
fn arithmetic_lhs_with_parens_then_multiplication() {
    // (a + b) * 2 > c — same shape, multiplicative continuation.
    let result = parse("(a + b) * 2 > c", &[("a", 0), ("b", 1), ("c", 2)]).unwrap();
    assert!(matches!(result, BooleanExpression::Comparison(_)));
}

#[test]
fn arithmetic_lhs_with_single_var_in_parens_then_more() {
    // (a) + 1 > 0 — degenerate single-variable paren followed by arith.
    let result = parse("(a) + 1 > 0", &[("a", 0)]).unwrap();
    assert!(matches!(result, BooleanExpression::Comparison(_)));
}

#[test]
fn arithmetic_lhs_with_nested_parens_then_more() {
    // ((a + b)) + 1 > 0 — nested parens, then continuation.
    let result = parse("((a + b)) + 1 > 0", &[("a", 0), ("b", 1)]).unwrap();
    assert!(matches!(result, BooleanExpression::Comparison(_)));
}

#[test]
fn boolean_group_followed_by_logical_still_parses_as_group() {
    // (a > 0) and b > 0 — leading paren opens a boolean group, not
    // an arith LHS. The continuation scanner sees `and` after the
    // matching `)` and falls back to the boolean grammar.
    let result = parse("(a > 0) and b > 0", &[("a", 0), ("b", 1)]).unwrap();
    assert!(matches!(result, BooleanExpression::And(_, _)));
}

#[test]
fn boolean_expression_rejects_bare_integer_left_of_and() {
    let err = parse("health and shield > 0", &[("health", 0), ("shield", 1)]).unwrap_err();
    assert_eq!(
        err,
        BooleanParseError::BareIntegerOperandOfLogical {
            operator: LogicalKeyword::And,
        }
    );
}

#[test]
fn rejects_bare_integer_left_of_or() {
    let err = parse("health or shield > 0", &[("health", 0), ("shield", 1)]).unwrap_err();
    assert_eq!(
        err,
        BooleanParseError::BareIntegerOperandOfLogical {
            operator: LogicalKeyword::Or,
        }
    );
}

#[test]
fn boolean_expression_rejects_bare_integer_right_of_and() {
    let err = parse("x > 0 and y", &[("x", 0), ("y", 1)]).unwrap_err();
    assert_eq!(
        err,
        BooleanParseError::BareIntegerOperandOfLogical {
            operator: LogicalKeyword::And,
        }
    );
}

#[test]
fn boolean_expression_rejects_bare_integer_right_of_or() {
    let err = parse("x > 0 or y", &[("x", 0), ("y", 1)]).unwrap_err();
    assert_eq!(
        err,
        BooleanParseError::BareIntegerOperandOfLogical {
            operator: LogicalKeyword::Or,
        }
    );
}

#[test]
fn rejects_bare_integer_operand_of_not() {
    let err = parse("not health", &[("health", 0)]).unwrap_err();
    assert_eq!(err, BooleanParseError::BareIntegerOperandOfNot);
}

#[test]
fn rejects_missing_left_operand_and() {
    let err = parse("and x > 0", &[("x", 0)]).unwrap_err();
    assert_eq!(
        err,
        BooleanParseError::MissingLeftOperand {
            operator: LogicalKeyword::And,
        }
    );
}

#[test]
fn rejects_missing_left_operand_or() {
    let err = parse("or x > 0", &[("x", 0)]).unwrap_err();
    assert_eq!(
        err,
        BooleanParseError::MissingLeftOperand {
            operator: LogicalKeyword::Or,
        }
    );
}

#[test]
fn boolean_expression_rejects_missing_right_operand_and() {
    let err = parse("x > 0 and", &[("x", 0)]).unwrap_err();
    assert_eq!(
        err,
        BooleanParseError::MissingRightOperand {
            operator: LogicalKeyword::And,
        }
    );
}

#[test]
fn rejects_missing_right_operand_or() {
    let err = parse("x > 0 or", &[("x", 0)]).unwrap_err();
    assert_eq!(
        err,
        BooleanParseError::MissingRightOperand {
            operator: LogicalKeyword::Or,
        }
    );
}

#[test]
fn rejects_missing_not_operand() {
    let err = parse("not", &[]).unwrap_err();
    assert_eq!(err, BooleanParseError::MissingNotOperand);
}

#[test]
fn rejects_unbalanced_close_paren() {
    let err = parse("x > 0 and x < 10)", &[("x", 0)]).unwrap_err();
    assert_eq!(err, BooleanParseError::UnbalancedParentheses);
}

#[test]
fn boolean_expression_rejects_unbalanced_open_paren() {
    let err = parse("(x > 0 and x < 10", &[("x", 0)]).unwrap_err();
    assert_eq!(err, BooleanParseError::UnbalancedParentheses);
}

#[test]
fn uppercase_and_is_identifier() {
    let err = parse("x > 0 AND y > 0", &[("x", 0), ("y", 1)]).unwrap_err();
    assert_eq!(
        err,
        BooleanParseError::UndefinedVariable {
            name: "AND".to_string()
        }
    );
}

#[test]
fn uppercase_or_is_identifier() {
    let err = parse("x > 0 OR y > 0", &[("x", 0), ("y", 1)]).unwrap_err();
    assert_eq!(
        err,
        BooleanParseError::UndefinedVariable {
            name: "OR".to_string()
        }
    );
}

#[test]
fn uppercase_not_is_identifier() {
    let err = parse("x > 0 and NOT y > 0", &[("x", 0), ("y", 1)]).unwrap_err();
    assert_eq!(
        err,
        BooleanParseError::UndefinedVariable {
            name: "NOT".to_string()
        }
    );
}

#[test]
fn unknown_operator_tilde() {
    let err = parse("x ~ 5", &[("x", 0)]).unwrap_err();
    assert_eq!(
        err,
        BooleanParseError::UnknownSymbol {
            symbol: "~".to_string()
        }
    );
}

#[test]
fn malformed_dangling_arithmetic_operator() {
    let err = parse("x > 5 +", &[("x", 0)]).unwrap_err();
    assert_eq!(err, BooleanParseError::Malformed);
}

#[test]
fn literal_overflow_carries_the_offending_literal() {
    let err = parse("x > 99999999999999999999", &[("x", 0)]).unwrap_err();
    assert_eq!(
        err,
        BooleanParseError::LiteralOverflow {
            literal: "99999999999999999999".to_string()
        }
    );
}

#[test]
fn rejects_expression_nested_beyond_cap() {
    // A chain of `not` deeper than MAX_EXPRESSION_DEPTH must be
    // rejected at parse time, before we recurse far enough to risk
    // stack overflow. The condition `x > 0` is well-formed by
    // itself; only the wrapping depth makes the input bad.
    let mut input = String::new();
    for _ in 0..=MAX_EXPRESSION_DEPTH {
        input.push_str("not ");
    }
    input.push_str("x > 0");
    let err = parse(&input, &[("x", 0)]).unwrap_err();
    assert_eq!(err, BooleanParseError::ExpressionTooDeep);
}

#[test]
fn accepts_expression_at_modest_depth() {
    // Sanity check: a depth well under the cap still parses.
    let mut input = String::new();
    for _ in 0..16 {
        input.push_str("not ");
    }
    input.push_str("x > 0");
    let result = parse(&input, &[("x", 0)]).unwrap();
    // Outer node is `Not` — the chain reduces by one each level.
    assert!(matches!(result, BooleanExpression::Not(_)));
}

#[test]
fn rejects_deep_arithmetic_unary_minus() {
    // 200 leading `-`s on the RHS recurse through the shared
    // arithmetic `parse_unary` body. Before the arith side joined
    // the cap, this used to grow the parser stack linearly with the
    // input length. Now the same `MAX_EXPRESSION_DEPTH` budget
    // catches it before recursion gets dangerous.
    let mut input = String::from("x > ");
    for _ in 0..200 {
        input.push('-');
    }
    input.push('1');
    let err = parse(&input, &[("x", 0)]).unwrap_err();
    assert_eq!(err, BooleanParseError::ExpressionTooDeep);
}

#[test]
fn rejects_deep_arithmetic_paren_nesting() {
    // 200 nested `(`s in the RHS recurse through the shared
    // arithmetic `parse_primary` LParen branch. Same class of
    // stack-growth bug as the unary-minus chain; same cap catches
    // it. Closing parens are emitted symmetrically so any error
    // we observe is depth-related, not malformed-input-related.
    let mut input = String::from("x > ");
    for _ in 0..200 {
        input.push('(');
    }
    input.push('1');
    for _ in 0..200 {
        input.push(')');
    }
    let err = parse(&input, &[("x", 0)]).unwrap_err();
    assert_eq!(err, BooleanParseError::ExpressionTooDeep);
}

#[test]
fn boolean_and_arithmetic_depth_share_a_budget() {
    // Combining `not` wraps with an arith paren-nested RHS must
    // still cap at the same `MAX_EXPRESSION_DEPTH` — boolean and
    // arithmetic nesting feed the same counter, so an adversarial
    // input can't switch layers to dodge the limit.
    let half_minus_one = MAX_EXPRESSION_DEPTH / 2;
    let mut input = String::new();
    for _ in 0..half_minus_one {
        input.push_str("not ");
    }
    input.push_str("x > ");
    for _ in 0..=half_minus_one {
        input.push('(');
    }
    input.push('1');
    for _ in 0..=half_minus_one {
        input.push(')');
    }
    let err = parse(&input, &[("x", 0)]).unwrap_err();
    assert_eq!(err, BooleanParseError::ExpressionTooDeep);
}

#[test]
fn negative_literal_overflow_carries_the_offending_literal() {
    // `-9223372036854775809` = -(i64::MAX + 2). The magnitude fits in
    // u64 so the tokenizer accepts it as Int, then negate_u64_literal
    // catches the overflow and stamps the sign onto the reported
    // literal.
    let err = parse("x > -9223372036854775809", &[("x", 0)]).unwrap_err();
    assert_eq!(
        err,
        BooleanParseError::LiteralOverflow {
            literal: "-9223372036854775809".to_string()
        }
    );
}

#[test]
fn unknown_operator_preserves_non_ascii_symbol() {
    // U+2227 LOGICAL AND. The tokenizer walks `chars()`, so multi-byte
    // UTF-8 stays intact in the reported symbol — not split mid-byte
    // and stringified as "?".
    let err = parse("x > 0 ∧ y > 0", &[("x", 0), ("y", 1)]).unwrap_err();
    assert_eq!(
        err,
        BooleanParseError::UnknownSymbol {
            symbol: "∧".to_string()
        }
    );
}


#[test]
fn logical_keyword_text() {
    assert_eq!(LogicalKeyword::And.as_str(), "and");
    assert_eq!(LogicalKeyword::Or.as_str(), "or");
}

#[test]
fn comparison_operands_are_built_exactly() {
    let result = parse("x + 1 >= -2", &[("x", 0)]).unwrap();
    assert_eq!(
        result,
        BooleanExpression::Comparison(RequirementStatement {
            left: Expression::Binary {
                operator: BinaryOperator::Add,
                left: Box::new(Expression::Variable(0)),
                right: Box::new(Expression::Literal(Value::Integer(1))),
            },
            operator: ComparisonOperator::GreaterOrEqual,
            right: Expression::Literal(Value::Integer(-2)),
        })
    );
}

#[test]
fn each_comparison_operator_is_recognized() {
    let cases = [
        ("x = 1", ComparisonOperator::Equal),
        ("x != 1", ComparisonOperator::NotEqual),
        ("x < 1", ComparisonOperator::Less),
        ("x <= 1", ComparisonOperator::LessOrEqual),
        ("x > 1", ComparisonOperator::Greater),
        ("x >= 1", ComparisonOperator::GreaterOrEqual),
    ];
    for (input, op) in cases {
        match parse(input, &[("x", 0)]).unwrap() {
            BooleanExpression::Comparison(stmt) => assert_eq!(stmt.operator, op),
            other => panic!("expected Comparison, got {:?}", other),
        }
    }
}

#[test]
fn lone_bang_is_unknown_symbol() {
    let err = parse("x ! 1", &[("x", 0)]).unwrap_err();
    assert_eq!(err, BooleanParseError::UnknownSymbol { symbol: "!".to_string() });
}

#[test]
fn double_equals_has_dedicated_error() {
    let err = parse("x == 1", &[("x", 0)]).unwrap_err();
    assert_eq!(err, BooleanParseError::DoubleEquals);
}

#[test]
fn empty_condition_is_malformed() {
    assert_eq!(parse("   ", &[]).unwrap_err(), BooleanParseError::Malformed);
}

#[test]
fn bare_integer_at_top() {
    assert_eq!(parse("x + 1", &[("x", 0)]).unwrap_err(), BooleanParseError::BareIntegerAtTop);
}
