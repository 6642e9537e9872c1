use cuentitos_parser::block_parsers::{SectionParser, StringParser};
use cuentitos_parser::database::BlockType;
use cuentitos_parser::error::ParseError;
use cuentitos_parser::line_parser::Line;

fn line(raw_text: &str, line_number: usize) -> Line<'_> {
    Line { raw_text, file_path: None, line_number }
}

#[test]
fn section_test_parse_basic_section() {
    let heading = SectionParser::parse(line("# section_1: First Section", 1), 0, None, 1).unwrap().unwrap();
    assert_eq!(heading.hash_count, 1);
    assert_eq!(heading.id, "section_1");
    assert_eq!(heading.display_name, "First Section");
    assert_eq!(heading.level, 0);
}

#[test]
fn section_test_parse_subsection() {
    let heading =
        SectionParser::parse(line("## subsection_1: First Subsection", 1), 0, None, 1).unwrap().unwrap();
    assert_eq!(heading.hash_count, 2);
    assert_eq!(heading.id, "subsection_1");
    assert_eq!(heading.display_name, "First Subsection");
    assert_eq!(heading.level, 0);
}

#[test]
fn test_parse_deep_subsection() {
    let heading = SectionParser::parse(line("### subsubsection_1: Deep Nested Section", 1), 0, None, 1)
        .unwrap()
        .unwrap();
    assert_eq!(heading.hash_count, 3);
    assert_eq!(heading.id, "subsubsection_1");
    assert_eq!(heading.display_name, "Deep Nested Section");
    assert_eq!(heading.level, 0);
}

#[test]
fn section_test_parse_non_section() {
    let result = SectionParser::parse(line("Just a regular line", 1), 0, None, 1).unwrap();
    assert!(result.is_none());
}

#[test]
fn test_parse_section_without_colon() {
    let heading = SectionParser::parse(line("# section without colon", 1), 0, None, 1).unwrap().unwrap();
    assert_eq!(heading.hash_count, 1);
    // When no colon, the title is used as both ID and display name
    assert_eq!(heading.id, "section without colon");
    assert_eq!(heading.display_name, "section without colon");
}

#[test]
fn test_parse_indented_section() {
    let heading = SectionParser::parse(line("  # section_1: First Section", 1), 1, None, 1).unwrap().unwrap();
    assert_eq!(heading.hash_count, 1);
    // Section level is determined by indentation
    assert_eq!(heading.level, 1);
}

#[test]
fn section_test_parse_empty_section_title() {
    let result = SectionParser::parse(line("#", 4), 0, None, 4);
    match result {
        Err(ParseError::SectionWithoutTitle { .. }) => {},
        _ => panic!("Expected SectionWithoutTitle error"),
    }
}

#[test]
fn section_heading_errors_carry_location() {
    match SectionParser::parse(line("##   ", 9), 0, Some("story.cuentitos".to_string()), 7) {
        Err(ParseError::SectionWithoutTitle { file, line }) => {
            assert_eq!(file, Some("story.cuentitos".to_string()));
            assert_eq!(line, 7);
        },
        other => panic!("expected SectionWithoutTitle, got {:?}", other),
    }
    match SectionParser::parse(line(" # odd", 3), 0, None, 3) {
        Err(ParseError::InvalidIndentation { message, line, .. }) => {
            assert_eq!(message, "found 1 spaces.");
            assert_eq!(line, 3);
        },
        other => panic!("expected InvalidIndentation, got {:?}", other),
    }
}

#[test]
fn test_parse_basic_string() {
    let (blocks, strings) = StringParser::parse(line("Hello world", 1), 0).unwrap();
    assert_eq!(blocks.len(), 1);
    assert_eq!(strings.len(), 1);
    assert_eq!(strings[0], "Hello world");
    if let BlockType::String(id) = blocks[0].block_type {
        assert_eq!(id, 0); // Should be 0 as it's temporary
    } else {
        panic!("Expected String block type");
    }
    assert_eq!(blocks[0].level, 0);
}

#[test]
fn string_test_parse_empty_line() {
    assert!(StringParser::parse(line("", 1), 0).is_none());
}

#[test]
fn string_test_parse_with_indentation() {
    let (blocks, strings) = StringParser::parse(line("  Indented text", 1), 2).unwrap();
    assert_eq!(blocks[0].level, 2);
    assert_eq!(strings[0], "Indented text");
}

#[test]
fn test_parse_with_file_path() {
    let l = Line { raw_text: "Test with file", file_path: Some("test.txt".to_string()), line_number: 42 };
    let (blocks, strings) = StringParser::parse(l, 0).unwrap();
    assert_eq!(strings[0], "Test with file");
    assert_eq!(blocks[0].level, 0);
}

#[test]
fn string_parser_rejects_odd_indentation() {
    assert!(StringParser::parse(line("   three", 1), 0).is_none());
}
