use cuentitos_parser::error::ParseError;
use cuentitos_parser::parsers::go_to_section_parser::GoToSectionParser;
use cuentitos_parser::parsers::line_parser::LineParser;
use cuentitos_parser::parsers::option_parser::OptionParser;
use cuentitos_parser::parsers::section_parser::SectionParser;
use cuentitos_parser::parsers::{FeatureParser, ParserContext};

#[test]
fn test_parse_basic_go_to_section() {
    let parser = GoToSectionParser::new();
    let mut context = ParserContext::new();
    let result = parser.parse("-> Section B", &mut context).unwrap().unwrap();
    assert_eq!(result.path, "Section B");
}

#[test]
fn test_parse_absolute_path() {
    let parser = GoToSectionParser::new();
    let mut context = ParserContext::new();
    let result = parser.parse("-> Root \\ Child", &mut context).unwrap().unwrap();
    assert_eq!(result.path, "Root \\ Child");
}

#[test]
fn test_parse_parent_path() {
    let parser = GoToSectionParser::new();
    let mut context = ParserContext::new();
    let result = parser.parse("-> ..", &mut context).unwrap().unwrap();
    assert_eq!(result.path, "..");
}

#[test]
fn test_parse_current_section() {
    let parser = GoToSectionParser::new();
    let mut context = ParserContext::new();
    let result = parser.parse("-> .", &mut context).unwrap().unwrap();
    assert_eq!(result.path, ".");
}

#[test]
fn test_parse_combined_path() {
    let parser = GoToSectionParser::new();
    let mut context = ParserContext::new();
    let result = parser.parse("-> .. \\ Sibling", &mut context).unwrap().unwrap();
    assert_eq!(result.path, ".. \\ Sibling");
}

#[test]
fn test_parse_non_go_to_section() {
    let parser = GoToSectionParser::new();
    let mut context = ParserContext::new();
    let result = parser.parse("Just regular text", &mut context).unwrap();
    assert!(result.is_none());
}

#[test]
fn test_parse_no_space_after_arrow() {
    let parser = GoToSectionParser::new();
    let mut context = ParserContext::new();
    let result = parser.parse("->Section B", &mut context);
    assert!(matches!(result, Err(ParseError::InvalidGoToSection { .. })));
}

#[test]
fn test_parse_empty_reference() {
    let parser = GoToSectionParser::new();
    let mut context = ParserContext::new();
    let result = parser.parse("->", &mut context);
    assert!(matches!(result, Err(ParseError::InvalidGoToSection { .. })));
}

#[test]
fn test_parse_trailing_backslash() {
    let parser = GoToSectionParser::new();
    let mut context = ParserContext::new();
    let result = parser.parse("-> Section \\", &mut context);
    assert!(matches!(result, Err(ParseError::InvalidGoToSection { .. })));
}

#[test]
fn test_is_go_to_section() {
    assert!(GoToSectionParser::is_go_to_section("-> Section"));
    assert!(GoToSectionParser::is_go_to_section("  -> Section"));
    assert!(!GoToSectionParser::is_go_to_section("Regular text"));
    assert!(!GoToSectionParser::is_go_to_section("# Section"));
}

#[test]
fn go_to_rejects_badly_spaced_separator() {
    let parser = GoToSectionParser::new();
    let mut context = ParserContext::with_file("a.cuentitos".to_string());
    context.current_line = 4;
    match parser.parse("-> Root\\Child", &mut context) {
        Err(ParseError::InvalidGoToSection { message, file, line }) => {
            assert_eq!(message, "Expected section names separated by ' \\\\ '");
            assert_eq!(file, Some("a.cuentitos".to_string()));
            assert_eq!(line, 4);
        }
        _ => panic!("expected InvalidGoToSection"),
    }
    assert!(parser.parse("-> A \\ \\ B", &mut context).is_err());
}

#[test]
fn go_to_blank_target_message() {
    let parser = GoToSectionParser::new();
    let mut context = ParserContext::new();
    match parser.parse("->    ", &mut context) {
        Err(ParseError::InvalidGoToSection { message, .. }) => {
            assert_eq!(message, "Expected section name after '->'");
        }
        _ => panic!("expected InvalidGoToSection"),
    }
}

#[test]
fn test_is_option_line() {
    assert!(OptionParser::is_option_line("* Option text"));
    assert!(OptionParser::is_option_line("  * Option text"));
    assert!(OptionParser::is_option_line("*Option text"));
    assert!(!OptionParser::is_option_line("Not an option"));
    assert!(!OptionParser::is_option_line("// Comment"));
}

#[test]
fn test_parse_option() {
    let parser = OptionParser::new();
    let mut context = ParserContext::new();
    let result = parser.parse("* Go left", &mut context).unwrap();
    assert_eq!(result.text, "Go left");
}

#[test]
fn test_parse_option_with_extra_spaces() {
    let parser = OptionParser::new();
    let mut context = ParserContext::new();
    let result = parser.parse("*  Go left  ", &mut context).unwrap();
    assert_eq!(result.text, "Go left");
}

#[test]
fn test_parse_option_with_indentation() {
    let parser = OptionParser::new();
    let mut context = ParserContext::new();
    let result = parser.parse("  * Go right", &mut context).unwrap();
    assert_eq!(result.text, "Go right");
}

#[test]
fn test_parse_non_option_fails() {
    let parser = OptionParser::new();
    let mut context = ParserContext::new();
    let result = parser.parse("Not an option", &mut context);
    assert!(result.is_err());
}

#[test]
fn section_parser_test_parse_basic_section() {
    let parser = SectionParser::new();
    let mut context = ParserContext::new();
    let result = parser.parse("# First Section", &mut context).unwrap().unwrap();
    assert_eq!(result.id, "First Section");
    assert_eq!(result.display_name, "First Section");
    assert_eq!(result.hash_count, 1);
}

#[test]
fn test_parse_section_with_id() {
    let parser = SectionParser::new();
    let mut context = ParserContext::new();
    let result = parser.parse("# section_1: First Section", &mut context).unwrap().unwrap();
    assert_eq!(result.id, "section_1");
    assert_eq!(result.display_name, "First Section");
    assert_eq!(result.hash_count, 1);
}

#[test]
fn section_parser_test_parse_subsection() {
    let parser = SectionParser::new();
    let mut context = ParserContext::new();
    let result = parser.parse("## Subsection", &mut context).unwrap().unwrap();
    assert_eq!(result.hash_count, 2);
}

#[test]
fn section_parser_test_parse_non_section() {
    let parser = SectionParser::new();
    let mut context = ParserContext::new();
    let result = parser.parse("Just regular text", &mut context).unwrap();
    assert!(result.is_none());
}

#[test]
fn section_parser_test_parse_empty_section_title() {
    let parser = SectionParser::new();
    let mut context = ParserContext::new();
    let result = parser.parse("#", &mut context);
    match result {
        Err(ParseError::SectionWithoutTitle { .. }) => {}
        _ => panic!("Expected SectionWithoutTitle error"),
    }
}

#[test]
fn test_is_section() {
    assert!(SectionParser::is_section("# Section"));
    assert!(SectionParser::is_section("  ## Indented Section"));
    assert!(!SectionParser::is_section("Regular text"));
    assert!(!SectionParser::is_section("No hash here"));
}

#[test]
fn section_id_splits_at_first_colon() {
    let parser = SectionParser::new();
    let mut context = ParserContext::new();
    let result = parser.parse("### a : b: c", &mut context).unwrap().unwrap();
    assert_eq!(result.id, "a");
    assert_eq!(result.display_name, "b: c");
    assert_eq!(result.hash_count, 3);
}

#[test]
fn line_parser_test_parse() {
    let parser = LineParser::new();
    let mut context = ParserContext::new();
    let result = parser.parse("Hello, world!", &mut context).unwrap();
    assert_eq!(result.string, "Hello, world!");
}
