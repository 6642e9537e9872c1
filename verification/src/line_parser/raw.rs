//! The minimal line parser: a line's text, unchanged.
use vstd::prelude::*;

use crate::error::ParseError;

verus! {

/// A line of text.
pub struct Line<'a> {
    pub text: &'a str,
}

/// The parsed text of a line.
pub struct ParseResult {
    pub string: String,
}

/// Parse a line: its text, unchanged. Never fails.
pub fn parse(line: Line) -> (r: Result<ParseResult, ParseError>)
    ensures
        r matches Ok(res) && res.string@ == line.text@,
{
    Ok(ParseResult { string: line.text.to_owned() })
}

} // verus!
