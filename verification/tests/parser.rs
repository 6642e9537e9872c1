use cuentitos_parser::database::BlockType;
use cuentitos_parser::error::ParseError;
use cuentitos_parser::model::Value;
use cuentitos_parser::parse;
use cuentitos_parser::parser::Parser;

#[test]
fn parser_test_single_line_script() {
    let mut parser = Parser::default();
    let (database, _warnings) = parser.parse("This is a single line").unwrap();

    assert_eq!(database.blocks.len(), 3);
    assert_eq!(database.strings.len(), 1);

    assert_eq!(database.blocks[0].block_type, BlockType::Start);
    assert_eq!(database.blocks[0].level, 0);
    assert_eq!(database.blocks[0].parent_id, None);
    assert_eq!(database.blocks[0].children, vec![1]);

    if let BlockType::String(id) = database.blocks[1].block_type {
        assert_eq!(database.strings[id], "This is a single line");
    } else {
        panic!("Expected String block");
    }
    assert_eq!(database.blocks[1].level, 0);
    assert_eq!(database.blocks[1].parent_id, Some(0));
    assert!(database.blocks[1].children.is_empty());

    assert_eq!(database.blocks[2].block_type, BlockType::End);
    assert_eq!(database.blocks[2].level, 0);
    assert_eq!(database.blocks[2].parent_id, None);
    assert!(database.blocks[2].children.is_empty());
}

#[test]
fn parser_test_indented_script() {
    let script = "Parent\n  Child1\n  Child2\n    Grandchild\n  Child3";
    let mut parser = Parser::default();
    let (database, _warnings) = parser.parse(script).unwrap();

    assert_eq!(database.blocks.len(), 7);
    assert_eq!(database.strings.len(), 5);

    assert_eq!(database.blocks[1].level, 0);
    assert_eq!(database.blocks[2].level, 1);
    assert_eq!(database.blocks[3].level, 1);
    assert_eq!(database.blocks[4].level, 2);
    assert_eq!(database.blocks[5].level, 1);

    assert_eq!(database.blocks[1].parent_id, Some(0));
    assert_eq!(database.blocks[2].parent_id, Some(1));
    assert_eq!(database.blocks[3].parent_id, Some(1));
    assert_eq!(database.blocks[4].parent_id, Some(3));
    assert_eq!(database.blocks[5].parent_id, Some(1));
}

#[test]
fn test_warning_section_whitespace() {
    let script = "#  Section A  \nText in A";
    let mut parser = Parser::new();
    let result = parser.parse(script);
    assert!(result.is_ok());
    let (_database, warnings) = result.unwrap();

    assert_eq!(warnings.len(), 1);
    assert!(warnings[0].message.contains("Section name has leading/trailing whitespace"));
    assert!(warnings[0].message.contains("Section A"));
    assert_eq!(warnings[0].line, 1);
}

#[test]
fn test_warning_unreachable_siblings() {
    let script = "# Section A\nText before\n-> Section B\nText after sibling 1\nText after sibling 2\n\n# Section B\nText in B";
    let mut parser = Parser::new();
    let result = parser.parse(script);
    assert!(result.is_ok());
    let (_database, warnings) = result.unwrap();

    assert_eq!(warnings.len(), 2);
    assert!(warnings[0].message.contains("Unreachable code after section jump"));
    assert!(warnings[1].message.contains("Unreachable code after section jump"));
    assert_eq!(warnings[0].line, 4);
    assert_eq!(warnings[1].line, 5);
}

#[test]
fn test_warning_unreachable_children() {
    let script = "# Section A\nText before\n-> Section B\n  Text child 1\n  Text child 2\n\n# Section B\nText in B";
    let mut parser = Parser::new();
    let result = parser.parse(script);
    assert!(result.is_ok());
    let (_database, warnings) = result.unwrap();

    assert_eq!(warnings.len(), 2);
    assert!(warnings[0].message.contains("Unreachable code after section jump"));
    assert!(warnings[1].message.contains("Unreachable code after section jump"));
    assert_eq!(warnings[0].line, 4);
    assert_eq!(warnings[1].line, 5);
}

#[test]
fn test_subsections_not_unreachable() {
    let script = "# Parent\n-> Child A\n  ## Child A\n  Text in child A\n  ## Child B\n  Text in child B";
    let mut parser = Parser::new();
    let result = parser.parse(script);
    assert!(result.is_ok());
    let (_database, warnings) = result.unwrap();
    assert_eq!(warnings.len(), 0, "Subsections should not be flagged as unreachable. Got warnings: {:?}", warnings);
}

#[test]
fn test_error_section_not_found() {
    let script = "# Section A\n-> Nonexistent Section";
    let mut parser = Parser::new();
    let result = parser.parse(script);
    assert!(result.is_err());
    match result {
        Err(ParseError::SectionNotFound { path, line, .. }) => {
            assert_eq!(path, "Nonexistent Section");
            assert_eq!(line, 2);
        }
        Err(ParseError::MultipleErrors { errors }) => {
            assert!(errors.iter().any(|e| matches!(e, ParseError::SectionNotFound { path, line, .. }
                if path == "Nonexistent Section" && *line == 2)));
        }
        _ => panic!("Expected SectionNotFound error"),
    }
}

#[test]
fn test_error_navigation_above_root() {
    let script = "# Section A\n-> ..";
    let mut parser = Parser::new();
    let result = parser.parse(script);
    assert!(result.is_err());
    match result {
        Err(ParseError::NavigationAboveRoot { line, .. }) => {
            assert_eq!(line, 2);
        }
        Err(ParseError::MultipleErrors { errors }) => {
            assert!(errors.iter().any(|e| matches!(e, ParseError::NavigationAboveRoot { line, .. } if *line == 2)));
        }
        _ => panic!("Expected NavigationAboveRoot error"),
    }
}

#[test]
fn test_error_empty_section() {
    let script = "# Section A\n\n# Section B\nText in B";
    let mut parser = Parser::new();
    let result = parser.parse(script);
    assert!(result.is_err());
    match result {
        Err(ParseError::EmptySection { name, line, .. }) => {
            assert_eq!(name, "Section A");
            assert_eq!(line, 1);
        }
        Err(ParseError::MultipleErrors { errors }) => {
            assert!(errors.iter().any(|e| matches!(e, ParseError::EmptySection { name, .. } if name == "Section A")));
        }
        _ => panic!("Expected EmptySection error"),
    }
}

#[test]
fn test_section_with_only_goto_is_not_empty() {
    let script = "# Section A\n-> Section C\n\n# Section B\nText in B\n\n# Section C\nText in C";
    let mut parser = Parser::new();
    let result = parser.parse(script);
    assert!(result.is_ok(), "Section with only goto command should be valid, got error: {:?}", result.err());
}

#[test]
fn test_jump_to_parent_with_dotdot() {
    let script = "# Parent\nText in parent\n  ## Child\n  Text in child\n  -> ..";
    let mut parser = Parser::new();
    let result = parser.parse(script);
    assert!(result.is_ok(), "Jump to parent using .. should work, got error: {:?}", result.err());
    let (database, _warnings) = result.unwrap();

    let goto_block = database.blocks.iter().find(|b| matches!(b.block_type, BlockType::GoTo(_)));
    assert!(goto_block.is_some(), "Should have a GoTo block");
    if let Some(block) = goto_block {
        if let BlockType::GoTo(section_id) = block.block_type {
            let section = &database.sections[section_id];
            assert_eq!(section.block_id, 1, "Should resolve to Parent section (block 1)");
        }
    }
}

#[test]
fn test_error_malformed_empty_reference() {
    let script = "# Section A\n->";
    let mut parser = Parser::new();
    let result = parser.parse(script);
    assert!(result.is_err());
    match result {
        Err(ParseError::InvalidGoToSection { message, line, .. }) => {
            assert!(message.contains("Expected section name after '->'"));
            assert_eq!(line, 2);
        }
        Err(ParseError::MultipleErrors { errors }) => {
            assert!(errors.iter().any(|e| matches!(e, ParseError::InvalidGoToSection { message, line, .. }
                if message.contains("Expected section name after '->'") && *line == 2)));
        }
        Err(e) => panic!("Expected InvalidGoToSection error, got: {:?}", e),
        _ => panic!("Expected error"),
    }
}

#[test]
fn test_error_malformed_trailing_backslash() {
    let script = "# Section A\n-> Root \\";
    let mut parser = Parser::new();
    let result = parser.parse(script);
    assert!(result.is_err());
    match result {
        Err(ParseError::InvalidGoToSection { message, line, .. }) => {
            assert!(message.contains("Expected section names separated by ' \\\\ '"));
            assert_eq!(line, 2);
        }
        Err(ParseError::MultipleErrors { errors }) => {
            assert!(errors.iter().any(|e| matches!(e, ParseError::InvalidGoToSection { message, line, .. }
                if message.contains("Expected section names separated by ' \\\\ '") && *line == 2)));
        }
        _ => panic!("Expected InvalidGoToSection error"),
    }
}

#[test]
fn test_error_malformed_no_space_after_arrow() {
    let script = "# Section A\n->Section A";
    let mut parser = Parser::new();
    let result = parser.parse(script);
    assert!(result.is_err());
    match result {
        Err(ParseError::InvalidGoToSection { message, line, .. }) => {
            assert!(message.contains("Expected section name after '->'"));
            assert_eq!(line, 2);
        }
        Err(ParseError::MultipleErrors { errors }) => {
            assert!(errors.iter().any(|e| matches!(e, ParseError::InvalidGoToSection { message, line, .. }
                if message.contains("Expected section name after '->'") && *line == 2)));
        }
        _ => panic!("Expected InvalidGoToSection error"),
    }
}

#[test]
fn test_warning_extra_spaces_in_goto_path() {
    let script = "# Section A\nText\n->  Section A";
    let mut parser = Parser::new();
    let result = parser.parse(script);
    assert!(result.is_ok(), "Extra spaces in goto path should be accepted, got error: {:?}", result.err());
    let (_database, warnings) = result.unwrap();
    assert!(warnings.len() > 0, "Should have warning about whitespace");
    assert!(
        warnings.iter().any(|w| w.message.contains("whitespace") || w.message.contains("space")),
        "Should warn about whitespace, got: {:?}",
        warnings
    );
}

#[test]
fn test_error_malformed_wrong_spacing_around_backslash() {
    let script = "# Root\n  ## Child\nText\n-> Root\\Child";
    let mut parser = Parser::new();
    let result = parser.parse(script);
    assert!(result.is_err());
    match result {
        Err(ParseError::InvalidGoToSection { message, line, .. }) => {
            assert!(message.contains("Expected section names separated by ' \\\\ '"));
            assert_eq!(line, 4);
        }
        Err(ParseError::MultipleErrors { errors }) => {
            assert!(errors.iter().any(|e| matches!(e, ParseError::InvalidGoToSection { message, line, .. }
                if message.contains("Expected section names separated by ' \\\\ '") && *line == 4)));
        }
        _ => panic!("Expected InvalidGoToSection error"),
    }
}

#[test]
fn parser_test_invalid_indentation() {
    let script = "First line\n   Invalid indentation";
    let mut parser = Parser::new();
    match parser.parse(script) {
        Err(ParseError::InvalidIndentation { message: _, file: None, line: 2 }) => (),
        _ => panic!("Expected InvalidIndentation error"),
    }
}

#[test]
fn parser_test_skip_empty_lines() {
    let script = "First\n\n  Second";
    let mut parser = Parser::default();
    let (database, _warnings) = parser.parse(script).unwrap();
    assert_eq!(database.strings.len(), 2);
    assert_eq!(database.strings[0], "First");
    assert_eq!(database.strings[1], "Second");
}

#[test]
fn parser_test_invalid_indentation_with_file() {
    let script = "First line\n   Invalid indentation";
    let mut parser = Parser::with_file("test.cuentitos".to_string());
    match parser.parse(script) {
        Err(ParseError::InvalidIndentation { message: _, file: Some(path), line: 2 }) => {
            assert_eq!(path, "test.cuentitos");
        }
        _ => panic!("Expected InvalidIndentation error with file path"),
    }
}

#[test]
fn test_is_comment() {
    assert!(Parser::is_comment("// This is a comment"));
    assert!(Parser::is_comment("  // Indented comment"));
    assert!(Parser::is_comment("    // More indentation"));
    assert!(Parser::is_comment("//"));
    assert!(Parser::is_comment("/// Triple slash"));
    assert!(Parser::is_comment("//// Quadruple slash"));
    assert!(!Parser::is_comment("Not a comment"));
    assert!(!Parser::is_comment("# Section"));
    assert!(!Parser::is_comment("Text with // in middle"));
}

#[test]
fn test_comment_parsing() {
    let script = "// Comment at start\nFirst line\n// Comment in middle\nSecond line\n// Comment at end";
    let mut parser = Parser::new();
    let (database, _warnings) = parser.parse(script).unwrap();
    assert_eq!(database.blocks.len(), 4);
    assert_eq!(database.strings.len(), 2);
    assert_eq!(database.strings[0], "First line");
    assert_eq!(database.strings[1], "Second line");
}

#[test]
fn test_comment_with_arbitrary_indentation() {
    let script = "First line\n      // Comment with weird indentation\nSecond line";
    let mut parser = Parser::new();
    let (database, _warnings) = parser.parse(script).unwrap();
    assert_eq!(database.blocks.len(), 4);
    assert_eq!(database.strings.len(), 2);
    assert_eq!(database.strings[0], "First line");
    assert_eq!(database.strings[1], "Second line");
}

#[test]
fn test_option_parsing_basic() {
    let script = "Choose one\n  * Option A\n    Content A\n  * Option B\n    Content B";
    let mut parser = Parser::new();
    let (database, _warnings) = parser.parse(script).unwrap();
    assert_eq!(database.blocks.len(), 7);
    match &database.blocks[2].block_type {
        BlockType::Option(string_id) => assert_eq!(database.strings[*string_id], "Option A"),
        _ => panic!("Expected Option block"),
    }
    match &database.blocks[4].block_type {
        BlockType::Option(string_id) => assert_eq!(database.strings[*string_id], "Option B"),
        _ => panic!("Expected Option block"),
    }
}

#[test]
fn test_options_without_parent_at_root() {
    let script = "* Option A\n  Content A\n* Option B\n  Content B";
    let mut parser = Parser::new();
    let result = parser.parse(script);
    assert!(result.is_err(), "Expected error but got success");
    match result.unwrap_err() {
        ParseError::MultipleErrors { errors } => {
            assert_eq!(errors.len(), 2);
            for (i, err) in errors.iter().enumerate() {
                match err {
                    ParseError::OptionsWithoutParent { file: _, line } => {
                        assert_eq!(*line, if i == 0 { 1 } else { 3 });
                    }
                    _ => panic!("Expected OptionsWithoutParent error"),
                }
            }
        }
        ParseError::OptionsWithoutParent { file: _, line } => {
            assert_eq!(line, 1);
        }
        err => panic!("Expected OptionsWithoutParent error, got: {:?}", err),
    }
}

#[test]
fn test_options_with_non_option_sibling_before() {
    let script = "Parent\n  Regular text\n  * Option A\n    Content A";
    let mut parser = Parser::new();
    let result = parser.parse(script);
    assert!(result.is_err());
    match result.unwrap_err() {
        ParseError::OptionsWithoutParent { file: _, line } => {
            assert_eq!(line, 3);
        }
        _ => panic!("Expected OptionsWithoutParent error"),
    }
}

#[test]
fn test_parse_integer_variables() {
    let script = "--- variables\nint score\nint lives = 3\n---\nHello";
    let mut parser = Parser::new();
    let result = parser.parse(script);
    assert!(result.is_ok(), "Expected ok, got error: {:?}", result);
    let (database, _warnings) = result.unwrap();
    assert_eq!(database.variables.len(), 2);
    assert_eq!(database.variables[0].name, "score");
    assert_eq!(database.variables[0].default, Value::Integer(0));
    assert_eq!(database.variables[1].name, "lives");
    assert_eq!(database.variables[1].default, Value::Integer(3));
}

#[test]
fn test_error_duplicate_variable_name() {
    let script = "--- variables\nint score\nint score = 5\n---\nHello";
    let mut parser = Parser::new();
    let result = parser.parse(script);
    assert!(result.is_err());
    match result.unwrap_err() {
        ParseError::DuplicateVariableName { name, line } => {
            assert_eq!(name, "score");
            assert_eq!(line, 3);
        }
        ParseError::MultipleErrors { errors } => {
            assert!(errors.iter().any(|e| matches!(e, ParseError::DuplicateVariableName { name, line }
                if name == "score" && *line == 3)));
        }
        err => panic!("Expected DuplicateVariableName error, got: {:?}", err),
    }
}

#[test]
fn test_parse_set_statement_block() {
    let script = "--- variables\nint score\n---\nset score = 5\nHello";
    let mut parser = Parser::new();
    let result = parser.parse(script);
    assert!(result.is_ok(), "Expected ok, got error: {:?}", result);
    let (database, _warnings) = result.unwrap();
    assert!(database.blocks.iter().any(|block| matches!(block.block_type, BlockType::SetVariable { .. })));
}

#[test]
fn test_parse_require_statement_block() {
    let script = "--- variables\nint score = 5\n---\nrequire score >= 3\nHello";
    let mut parser = Parser::new();
    let result = parser.parse(script);
    assert!(result.is_ok(), "Expected ok, got error: {:?}", result);
    let (database, _warnings) = result.unwrap();
    assert!(database.blocks.iter().any(|block| matches!(block.block_type, BlockType::RequireVariable { .. })));
}

#[test]
fn test_nested_sections() {
    let mut parser = Parser::with_file("test.cuentitos".to_string());
    let script = "\
# Main Section
This is text in the main section
  ## First Sub-section
  This is text in the first sub-section
    ### Deep Sub-section
    This is text in a deep sub-section
  ## Second Sub-section
  This is text in the second sub-section

# Another Main Section
This is text in another main section
  ## Its Sub-section
  This is text in its sub-section";

    let (database, _warnings) = parser.parse(script).unwrap();
    assert_eq!(database.blocks.len(), 14);

    let find_section = |title: &str| -> usize {
        database
            .blocks
            .iter()
            .position(|block| matches!(block.block_type, BlockType::Section(id)
                if database.strings[database.sections[id].name] == title))
            .unwrap()
    };

    let main_section = find_section("Main Section");
    let first_sub = find_section("First Sub-section");
    let deep_sub = find_section("Deep Sub-section");
    let second_sub = find_section("Second Sub-section");
    let another_main = find_section("Another Main Section");
    let its_sub = find_section("Its Sub-section");

    assert_eq!(database.blocks[main_section].level, 0);
    assert_eq!(database.blocks[first_sub].level, 1);
    assert_eq!(database.blocks[deep_sub].level, 2);
    assert_eq!(database.blocks[second_sub].level, 1);
    assert_eq!(database.blocks[another_main].level, 0);
    assert_eq!(database.blocks[its_sub].level, 1);

    assert_eq!(database.blocks[main_section].parent_id, Some(0));
    assert_eq!(database.blocks[first_sub].parent_id, Some(main_section));
    assert_eq!(database.blocks[deep_sub].parent_id, Some(first_sub));
    assert_eq!(database.blocks[second_sub].parent_id, Some(main_section));
    assert_eq!(database.blocks[another_main].parent_id, Some(0));
    assert_eq!(database.blocks[its_sub].parent_id, Some(another_main));

    let text_blocks: Vec<_> = database
        .blocks
        .iter()
        .filter_map(|block| {
            if let BlockType::String(id) = block.block_type {
                Some((block.level, database.strings[id].as_str()))
            } else {
                None
            }
        })
        .collect();
    assert_eq!(
        text_blocks,
        vec![
            (0, "This is text in the main section"),
            (1, "This is text in the first sub-section"),
            (2, "This is text in a deep sub-section"),
            (1, "This is text in the second sub-section"),
            (0, "This is text in another main section"),
            (1, "This is text in its sub-section"),
        ]
    );
}

#[test]
fn test_orphaned_subsection() {
    let mut parser = Parser::with_file("test.cuentitos".to_string());
    let script = "  ## Orphaned Sub-section\n  This should cause an error\n\n# Valid Section\nThis is text in a valid section\n  ## Valid Sub-section\n  This is valid";
    match parser.parse(script) {
        Err(ParseError::InvalidSectionHierarchy { file, line, .. }) => {
            assert_eq!(file.as_deref(), Some("test.cuentitos"));
            assert_eq!(line, 1);
        }
        other => panic!("Expected an orphaned sub-section error, got {:?}", other),
    }
}

#[test]
fn test_multiple_errors() {
    let mut parser = Parser::with_file("test.cuentitos".to_string());
    let script = "\
# Story
  ## Chapter One
  This is chapter one
  ## Chapter Two
  This is chapter two
  ## Chapter One
  This should cause an error
# Story
This should also cause an error";

    let errors = match parser.parse(script) {
        Err(ParseError::MultipleErrors { errors }) => errors,
        other => panic!("Expected several errors, got {:?}", other),
    };
    assert_eq!(errors.len(), 2);
    match &errors[0] {
        ParseError::DuplicateSectionName { file, line, name, parent_name, previous_line } => {
            assert_eq!(file.as_deref(), Some("test.cuentitos"));
            assert_eq!(*line, 6);
            assert_eq!(name, "Chapter One");
            assert_eq!(parent_name, "Story");
            assert_eq!(*previous_line, 2);
        }
        _ => panic!("Expected DuplicateSectionName error"),
    }
    match &errors[1] {
        ParseError::DuplicateSectionName { file, line, name, parent_name, previous_line } => {
            assert_eq!(file.as_deref(), Some("test.cuentitos"));
            assert_eq!(*line, 8);
            assert_eq!(name, "Story");
            assert_eq!(parent_name, "<root>");
            assert_eq!(*previous_line, 1);
        }
        _ => panic!("Expected DuplicateSectionName error"),
    }
    let error_messages: Vec<_> = errors.iter().map(|e| e.message()).collect();
    assert_eq!(error_messages, vec![
        "test.cuentitos:6: ERROR: Duplicate section name: 'Chapter One' already exists at this level under 'Story'. Previously defined at line 2.",
        "test.cuentitos:8: ERROR: Duplicate section name: 'Story' already exists at this level under '<root>'. Previously defined at line 1."
    ]);
}

#[test]
fn sibling_sections_have_same_parent() {
    let script = "\
# Main Section
Text in main
  ## First Sub-section
  Text in first
  ## Second Sub-section
  Text in second";
    let (database, _warnings) = parse(script).unwrap();
    let find_section = |title: &str| -> usize {
        database
            .blocks
            .iter()
            .position(|block| matches!(block.block_type, BlockType::Section(id)
                if database.strings[database.sections[id].name] == title))
            .unwrap()
    };
    let main = find_section("Main Section");
    let first = find_section("First Sub-section");
    let second = find_section("Second Sub-section");
    assert_eq!(database.blocks[first].parent_id, Some(main));
    assert_eq!(database.blocks[second].parent_id, Some(main));
}

#[test]
fn multiple_errors_message_joins_with_blank_line() {
    let error = ParseError::MultipleErrors {
        errors: vec![
            ParseError::MissingVariableName { line: 2 },
            ParseError::UnclosedVariablesBlock,
        ],
    };
    assert_eq!(error.message(), "Error: Missing variable name at line 2\n\nError: Unclosed variables block");
}

#[test]
fn located_message_uses_file_name_of_path() {
    let error = ParseError::SectionNotFound {
        path: "Nowhere".to_string(),
        file: Some("stories/intro.cuentitos".to_string()),
        line: 7,
    };
    assert_eq!(error.message(), "intro.cuentitos:7: ERROR: Section not found: Nowhere");
    let anonymous = ParseError::NavigationAboveRoot { file: None, line: 3 };
    assert_eq!(anonymous.message(), "test.cuentitos:3: ERROR: Cannot navigate above root level");
}

#[test]
fn reserved_section_name_is_rejected() {
    let mut parser = Parser::new();
    match parser.parse("# END\nText") {
        Err(ParseError::InvalidSectionName { message, name, line, .. }) => {
            assert_eq!(message, "Section name \"END\" is reserved");
            assert_eq!(name, "END");
            assert_eq!(line, 1);
        }
        other => panic!("Expected InvalidSectionName, got {:?}", other),
    }
}

#[test]
fn jump_to_special_targets_resolves() {
    let mut parser = Parser::new();
    let (database, _warnings) = parser.parse("# A\nText\n-> END").unwrap();
    assert!(database.blocks.iter().any(|b| b.block_type == BlockType::GoToEnd));
}

#[test]
fn jump_to_sibling_section_by_relative_name() {
    let script = "# Root\nText\n  ## Left\n  Left text\n  -> Right\n  ## Right\n  Right text";
    let mut parser = Parser::new();
    let (database, _warnings) = parser.parse(script).unwrap();
    let goto = database.blocks.iter().find_map(|b| match b.block_type {
        BlockType::GoTo(sid) => Some(sid),
        _ => None,
    });
    let sid = goto.expect("a resolved jump");
    assert_eq!(database.strings[database.sections[sid].name], "Right");
}

#[test]
fn require_with_unknown_operator_is_reported() {
    let script = "--- variables\nint score\n---\nrequire score ~ 3\nHello";
    let mut parser = Parser::new();
    match parser.parse(script) {
        Err(ParseError::InvalidRequireOperator { operator, line }) => {
            assert_eq!(operator, "~");
            assert_eq!(line, 4);
        }
        other => panic!("Expected InvalidRequireOperator, got {:?}", other),
    }
}

#[test]
fn unclosed_variables_block_is_reported() {
    let mut parser = Parser::new();
    match parser.parse("--- variables\nint score") {
        Err(ParseError::UnclosedVariablesBlock) => {}
        other => panic!("Expected UnclosedVariablesBlock, got {:?}", other),
    }
}

#[test]
fn each_content_line_makes_one_block_in_order() {
    let script = "--- variables\nint gold = 1\n---\n// a comment\n\n# intro: Intro\n  Hello there\n    * Go on\n    * Stop\n  set gold = 2\n  require gold >= 1\n  -> .\n";
    let (database, _warnings) = parse(script).unwrap();
    // Start, seven content lines, End.
    assert_eq!(database.blocks.len(), 9);
    let lines: Vec<usize> = database.blocks.iter().map(|b| b.line).collect();
    assert_eq!(lines, vec![0, 6, 7, 8, 9, 10, 11, 12, 0]);
    let levels: Vec<usize> = database.blocks.iter().map(|b| b.level).collect();
    assert_eq!(levels, vec![0, 0, 1, 2, 2, 1, 1, 1, 0]);
    assert!(matches!(database.blocks[1].block_type, BlockType::Section(_)));
    match database.blocks[2].block_type {
        BlockType::String(id) => assert_eq!(database.strings[id], "Hello there"),
        ref other => panic!("expected text, got {:?}", other),
    }
    match database.blocks[3].block_type {
        BlockType::Option(id) => assert_eq!(database.strings[id], "Go on"),
        ref other => panic!("expected option, got {:?}", other),
    }
    assert!(matches!(database.blocks[5].block_type, BlockType::SetVariable { .. }));
    assert!(matches!(database.blocks[6].block_type, BlockType::RequireVariable { .. }));
    assert!(matches!(database.blocks[7].block_type, BlockType::GoTo(_)));
}

#[test]
fn plain_text_within_the_indentation_rule_is_always_read() {
    let script = "// a story\nOnce\n  upon\n\n    a time\nthere\n    was";
    let (database, warnings) = parse(script).unwrap();
    assert!(warnings.is_empty());
    assert_eq!(database.blocks.len(), 7);
    assert_eq!(database.blocks[4].level, 0);
    assert_eq!(database.blocks[5].level, 2);
    assert_eq!(database.blocks[5].parent_id, Some(2));
}

#[test]
fn plain_text_deeper_than_the_open_levels_is_refused() {
    match parse("Once\n    too deep") {
        Err(ParseError::InvalidIndentation { line, .. }) => assert_eq!(line, 2),
        other => panic!("expected an indentation error, got {:?}", other),
    }
}

#[test]
fn a_script_with_a_line_that_cannot_be_read_is_refused() {
    for script in [
        "A\n\tB",
        "A\n   B",
        "Text\n--- variables\nint x\n---",
        "--- variables\nint x\n---\n--- variables",
        "#",
        "# Intro\n  ##",
        "->",
        "->x",
        "-> a\\",
        "set x",
        "set = 3",
        "require x >",
        "--- variables\nint x",
        "* Option at the root",
    ] {
        assert!(parse(script).is_err(), "expected {:?} to be refused", script);
    }
}

#[test]
fn sections_statements_and_options_hang_below_the_open_blocks() {
    let script = "# Intro\nHello\n  * Yes\n    Good\n  ## Deeper\n  Inside\n# Outro\nBye";
    let (db, _) = parse(script).unwrap();
    let parents: Vec<Option<usize>> = (1..=8).map(|i| db.blocks[i].parent_id).collect();
    assert_eq!(parents, vec![Some(0), Some(1), Some(2), Some(3), Some(1), Some(5), Some(0), Some(7)]);
}

#[test]
fn refused_lines_are_reported_with_their_errors() {
    let mut parser = Parser::with_file("story.cuentitos".to_string());
    match parser.parse("Fine\n   Odd\n* Root option") {
        Err(ParseError::MultipleErrors { errors }) => {
            assert_eq!(errors.len(), 2);
            assert!(matches!(&errors[0], ParseError::InvalidIndentation { file: Some(f), line: 2, .. } if f == "story.cuentitos"));
            assert!(matches!(&errors[1], ParseError::OptionsWithoutParent { file: Some(f), line: 3 } if f == "story.cuentitos"));
        }
        other => panic!("expected two errors, got {:?}", other),
    }
}

#[test]
fn story_with_sections_and_options_is_read_without_warnings() {
    let script = "# A\nText A\n  * Choice\n    Inside\n# B\nText B";
    let mut parser = Parser::new();
    let (database, warnings) = parser.parse(script).unwrap();
    assert!(warnings.is_empty());
    assert_eq!(database.blocks.len(), 8);
    assert!(matches!(database.blocks[1].block_type, BlockType::Section(_)));
    assert!(matches!(database.blocks[3].block_type, BlockType::Option(_)));
    assert_eq!(database.blocks[3].parent_id, Some(2));
    assert_eq!(database.blocks[5].parent_id, Some(0));
}

#[test]
fn story_with_a_jump_gets_only_unreachable_warnings() {
    let script = "# A\nFirst\n-> B\nLost\n# B\nText B";
    let mut parser = Parser::new();
    let (_database, warnings) = parser.parse(script).unwrap();
    assert_eq!(warnings.len(), 1);
    assert_eq!(warnings[0].line, 4);
    assert!(warnings[0].message.contains("Unreachable code after section jump"));
}

#[test]
fn nested_section_hangs_below_last_section_one_level_up() {
    let script = "# A\n  ## A1\n    Text\n# B\n  ## B1\n    Text";
    let mut parser = Parser::new();
    let (database, _warnings) = parser.parse(script).unwrap();
    assert_eq!(database.blocks[2].parent_id, Some(1));
    assert_eq!(database.blocks[5].parent_id, Some(4));
    assert_eq!(database.blocks[4].parent_id, Some(0));
}

#[test]
fn story_with_variables_and_statements_is_read() {
    let script = "--- variables\nint score\nint lives = 3\n---\n# Start\nset score = 5\nrequire lives > 0\nHello";
    let mut parser = Parser::new();
    let (database, warnings) = parser.parse(script).unwrap();
    assert!(warnings.is_empty());
    assert_eq!(database.variables.len(), 2);
    assert!(matches!(database.blocks[2].block_type, BlockType::SetVariable { variable_id: 0, value: Value::Integer(5) }));
    assert!(matches!(database.blocks[3].block_type, BlockType::RequireVariable { variable_id: 1, .. }));
}

#[test]
fn first_error_is_the_first_repeated_section() {
    let script = "# A\nText\n# A\nMore";
    let mut parser = Parser::with_file("story.cuentitos".to_string());
    let result = parser.parse(script);
    match result {
        Err(ParseError::DuplicateSectionName { line, previous_line, .. }) => {
            assert_eq!(line, 3);
            assert_eq!(previous_line, 1);
        },
        other => panic!("unexpected result {:?}", other.is_ok()),
    }
}
