use cuentitos_parser::error::ParseError;
use cuentitos_parser::line_parser::raw;
use cuentitos_parser::line_parser::{parse, Line};

#[test]
fn test_parse_no_indentation() {
    let line = Line { raw_text: "Hello, world!", file_path: None, line_number: 1 };
    let result = parse(line).unwrap();
    assert_eq!(result.string, "Hello, world!");
    assert_eq!(result.indentation_level, 0);
}

#[test]
fn line_parser_test_parse_with_indentation() {
    let line = Line { raw_text: "  Indented text", file_path: None, line_number: 1 };
    let result = parse(line).unwrap();
    assert_eq!(result.string, "Indented text");
    assert_eq!(result.indentation_level, 1);
}

#[test]
fn test_parse_deep_indentation() {
    let line = Line { raw_text: "      Deep indentation", file_path: None, line_number: 1 };
    let result = parse(line).unwrap();
    assert_eq!(result.string, "Deep indentation");
    assert_eq!(result.indentation_level, 3);
}

#[test]
fn test_parse_invalid_indentation() {
    let line = Line { raw_text: "   Odd indentation", file_path: None, line_number: 2 };
    match parse(line) {
        Err(ParseError::InvalidIndentation { message: _, file: None, line: 2 }) => (),
        _ => panic!("Expected InvalidIndentation error"),
    }
}

#[test]
fn line_parser_test_parse_empty_line() {
    let line = Line { raw_text: "", file_path: None, line_number: 1 };
    let result = parse(line).unwrap();
    assert_eq!(result.string, "");
    assert_eq!(result.indentation_level, 0);
}

#[test]
fn test_parse_whitespace_only() {
    let line = Line { raw_text: "    ", file_path: None, line_number: 1 };
    let result = parse(line).unwrap();
    assert_eq!(result.string, "");
    assert_eq!(result.indentation_level, 2);
}

#[test]
fn odd_indentation_message_names_the_space_count() {
    let line = Line { raw_text: "   x", file_path: Some("story.cuentitos".to_string()), line_number: 7 };
    match parse(line) {
        Err(ParseError::InvalidIndentation { message, file, line }) => {
            assert_eq!(message, "found 3 spaces.");
            assert_eq!(file, Some("story.cuentitos".to_string()));
            assert_eq!(line, 7);
        }
        _ => panic!("Expected InvalidIndentation error"),
    }
}

#[test]
fn indentation_counts_whitespace_bytes() {
    // A no-break space is whitespace two bytes long: one level.
    let line = Line { raw_text: "\u{a0}text ", file_path: None, line_number: 1 };
    let result = parse(line).unwrap();
    assert_eq!(result.string, "text");
    assert_eq!(result.indentation_level, 1);
}

#[test]
fn mod_test_parse() {
    let line = raw::Line { text: "Hello, world!" };
    let result = raw::parse(line).unwrap();
    assert_eq!(result.string, "Hello, world!");
}
