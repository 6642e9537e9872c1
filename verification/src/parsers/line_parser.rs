//! Parser for plain text lines.
use vstd::prelude::*;

use super::{FeatureParser, ParserContext};
use crate::error::ParseError;

verus! {

/// Parser for basic text lines.
#[derive(Debug, Default)]
pub struct LineParser;

/// The text of a line.
#[derive(Debug)]
pub struct LineParseResult {
    pub string: String,
}

impl LineParser {
    pub fn new() -> Self {
        LineParser
    }
}

impl FeatureParser for LineParser {
    type Output = LineParseResult;
    type Error = ParseError;

    /// The line's text, unchanged; never fails.
    fn parse(&self, input: &str, context: &mut ParserContext) -> (r: Result<LineParseResult, ParseError>)
        ensures
            r matches Ok(res) && res.string@ == input@,
            *final(context) == *old(context),
    {
        Ok(LineParseResult { string: input.to_owned() })
    }
}

} // verus!
