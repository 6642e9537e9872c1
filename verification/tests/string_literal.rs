use cuentitos_parser::string_literal::{parse_string_literal, StringLiteralError};

#[test]
fn parses_plain_literal() {
    assert_eq!(parse_string_literal("\"Hello\""), Ok("Hello".to_string()));
}

#[test]
fn parses_empty_literal() {
    assert_eq!(parse_string_literal("\"\""), Ok(String::new()));
}

#[test]
fn unescapes_supported_sequences() {
    assert_eq!(parse_string_literal("\"x\\ny\\\\z\\\"w\""), Ok("x\ny\\z\"w".to_string()));
}

#[test]
fn rejects_unterminated_literal() {
    assert_eq!(parse_string_literal("\"Brenn"), Err(StringLiteralError::Unterminated));
}

#[test]
fn rejects_invalid_escape() {
    assert_eq!(
        parse_string_literal("\"a\\qb\""),
        Err(StringLiteralError::InvalidEscape { sequence: "\\q".to_string() })
    );
}

#[test]
fn rejects_trailing_characters() {
    assert_eq!(parse_string_literal("\"a\" \"b\""), Err(StringLiteralError::TrailingCharacters));
    assert_eq!(
        parse_string_literal("\"Hello, \" + \"world\""),
        Err(StringLiteralError::TrailingCharacters)
    );
}

#[test]
fn ignores_trailing_whitespace() {
    assert_eq!(parse_string_literal("\"Hi\"   "), Ok("Hi".to_string()));
}

#[test]
fn backslash_at_end_is_unterminated() {
    assert_eq!(parse_string_literal("\"abc\\"), Err(StringLiteralError::Unterminated));
}

#[test]
fn unicode_content_is_kept() {
    assert_eq!(parse_string_literal("\"¡Hola, señor!\""), Ok("¡Hola, señor!".to_string()));
}

#[test]
fn escaped_text_reads_back_as_itself() {
    let text = "say \"hi\"\\\nbye";
    let mut literal = String::from("\"");
    for c in text.chars() {
        match c {
            '"' => literal.push_str("\\\""),
            '\n' => literal.push_str("\\n"),
            '\\' => literal.push_str("\\\\"),
            other => literal.push(other),
        }
    }
    literal.push_str("\"  \t");
    assert_eq!(parse_string_literal(&literal), Ok(text.to_string()));
}
