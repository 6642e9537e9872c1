//! Line-level feature parsers and the context they share.
use vstd::prelude::*;

use crate::database::Database;

pub mod go_to_section_parser;
pub mod line_parser;
pub mod option_parser;
pub mod req_parser;
pub mod section_parser;
pub mod variables_parser;
pub mod requirement_parser;
pub mod set_parser;
pub mod type_inference;

verus! {

/// The shared state of the feature parsers: the current line and level,
/// the file being read (if any), and the database being built.
#[derive(Debug)]
pub struct ParserContext {
    /// The current line being processed (1-based).
    pub current_line: usize,
    /// The current indentation level.
    pub current_level: usize,
    /// The file being processed, if any.
    pub file_path: Option<String>,
    /// The database being built.
    pub database: Database,
}

impl ParserContext {
    /// A context at line 1, level 0, with no file and an empty database.
    pub fn new() -> (c: Self)
        ensures
            c.current_line == 1,
            c.current_level == 0,
            c.file_path.is_none(),
            c.database.blocks@.len() == 0,
            c.database.sections@.len() == 0,
            c.database.strings@.len() == 0,
            c.database.variables@.len() == 0,
            c.database.section_registry@.len() == 0,
    {
        ParserContext { current_line: 1, current_level: 0, file_path: None, database: Database::new() }
    }

    /// A context for `file_path`, otherwise as [`ParserContext::new`].
    pub fn with_file(file_path: String) -> (c: Self)
        ensures
            c.current_line == 1,
            c.current_level == 0,
            c.file_path == Some(file_path),
            c.database.blocks@.len() == 0,
            c.database.sections@.len() == 0,
            c.database.strings@.len() == 0,
            c.database.variables@.len() == 0,
            c.database.section_registry@.len() == 0,
    {
        ParserContext {
            current_line: 1,
            current_level: 0,
            file_path: Some(file_path),
            database: Database::new(),
        }
    }
}

/// A parser for one kind of script line.
pub trait FeatureParser {
    /// What a successful parse produces.
    type Output;
    /// What a failed parse reports.
    type Error;

    /// Parse `input` in `context`.
    fn parse(&self, input: &str, context: &mut ParserContext) -> Result<Self::Output, Self::Error>;
}

} // verus!
