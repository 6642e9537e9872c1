use cuentitos_parser::parsers::requirement_parser::is_requirement_line;
use cuentitos_parser::parsers::set_parser::is_set_line;
use cuentitos_parser::parsers::variables_parser::{is_reserved_keyword, is_valid_identifier};

#[test]
fn identifier_rules() {
    assert!(is_valid_identifier("a"));
    assert!(is_valid_identifier("_foo"));
    assert!(is_valid_identifier("foo_bar_123"));
    assert!(!is_valid_identifier(""));
    assert!(!is_valid_identifier("2foo"));
    assert!(!is_valid_identifier("foo bar"));
    assert!(!is_valid_identifier("foo-bar"));
}

#[test]
fn identifiers_are_ascii_only() {
    assert!(!is_valid_identifier("año"));
    assert!(!is_valid_identifier("é"));
}

#[test]
fn reserved_keywords_are_lowercase_logical_words() {
    assert!(is_reserved_keyword("and"));
    assert!(is_reserved_keyword("or"));
    assert!(is_reserved_keyword("not"));
    assert!(!is_reserved_keyword("AND"));
    assert!(!is_reserved_keyword("Not"));
    assert!(!is_reserved_keyword("andy"));
}

#[test]
fn is_requirement_line_filters_non_keyword_lines() {
    assert!(is_requirement_line("req x > 0"));
    assert!(is_requirement_line("req\tx > 0"));
    assert!(is_requirement_line("req"));
    assert!(!is_requirement_line("Hello world"));
    assert!(!is_requirement_line("require x > 0"));
}

#[test]
fn is_set_line_filters_non_keyword_lines() {
    assert!(is_set_line("set x = 5"));
    assert!(is_set_line("set\tx = 5"));
    assert!(is_set_line("set"));
    assert!(!is_set_line("Hello"));
    assert!(!is_set_line("seth = 1"));
}
