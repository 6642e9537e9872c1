//! Parser for option lines (lines starting with `*`).
use vstd::prelude::*;

use super::{FeatureParser, ParserContext};
use crate::error::ParseError;
use crate::text::{chars_of, slice_chars, string_from_chars, trim, trim_chars, trim_start, trim_start_chars};

verus! {

/// Parser for option lines.
#[derive(Debug, Default)]
pub struct OptionParser;

/// The text of an option, without its `*`.
#[derive(Debug)]
pub struct OptionParseResult {
    pub text: String,
}

/// Whether `s`, ignoring leading whitespace, starts with `*`.
pub open spec fn is_option_text(s: Seq<char>) -> bool {
    trim_start(s).len() > 0 && trim_start(s)[0] == '*'
}

impl OptionParser {
    pub fn new() -> Self {
        OptionParser
    }

    /// Whether a line starts with `*` after leading whitespace.
    pub fn is_option_line(input: &str) -> (b: bool)
        ensures
            b == is_option_text(input@),
    {
        let chars = chars_of(input);
        let t = trim_start_chars(chars.as_slice());
        t.len() > 0 && t[0] == '*'
    }
}

impl FeatureParser for OptionParser {
    type Output = OptionParseResult;
    type Error = ParseError;

    /// The text after the `*`, trimmed; a line without a leading `*` is an
    /// unexpected token at the context's line.
    fn parse(&self, input: &str, context: &mut ParserContext) -> (r: Result<OptionParseResult, ParseError>)
        ensures
            is_option_text(input@) ==> (r matches Ok(res) && res.text@ == trim(trim_start(input@).drop_first())),
            !is_option_text(input@) ==> (r matches Err(ParseError::UnexpectedToken { file, line })
                && file == old(context).file_path && line == old(context).current_line),
            *final(context) == *old(context),
    {
        let chars = chars_of(input);
        let t = trim_start_chars(chars.as_slice());
        if !(t.len() > 0 && t[0] == '*') {
            return Err(ParseError::UnexpectedToken { file: context.file_path.clone(), line: context.current_line });
        }
        let rest = slice_chars(t.as_slice(), 1, t.len());
        assert(rest@ =~= t@.drop_first());
        let text = trim_chars(rest.as_slice());
        Ok(OptionParseResult { text: string_from_chars(text.as_slice()) })
    }
}

} // verus!
