//! Splits a raw script line into its indentation level and trimmed text.
use vstd::prelude::*;

use crate::error::ParseError;
use crate::text::{
    chars_of, leading_ws_len, lemma_utf8_len_prefix_le, push_all, push_decimal, string_from_chars,
    trim, trim_chars, utf8_len, utf8_len_of_prefix, ws_prefix_len, decimal,
};

pub mod raw;

verus! {

/// A raw line of a script, with where it came from.
#[derive(Debug, Clone)]
pub struct Line<'a> {
    pub raw_text: &'a str,
    pub file_path: Option<String>,
    pub line_number: usize,
}

/// A line's trimmed text and its indentation level (two spaces per level).
#[derive(Debug, Clone)]
pub struct ParseResult {
    pub string: String,
    pub indentation_level: usize,
}

/// Bytes of leading whitespace of `s` (`s.len() - s.trim_start().len()`).
pub open spec fn leading_ws_bytes(s: Seq<char>) -> nat {
    utf8_len(s.take(ws_prefix_len(s) as int))
}

/// The message of an odd indentation: `found {n} spaces.`
pub open spec fn odd_indentation_message(n: nat) -> Seq<char> {
    "found "@ + decimal(n) + " spaces."@
}

/// Parse a line: its leading whitespace, counted in bytes, must be a
/// multiple of two; the level is half that count and the text is the line
/// trimmed on both ends.
pub fn parse(line: Line) -> (r: Result<ParseResult, ParseError>)
    requires
        utf8_len(line.raw_text@) <= usize::MAX,
    ensures
        leading_ws_bytes(line.raw_text@) % 2 == 0 ==> (r matches Ok(res) && res.string@ == trim(
            line.raw_text@,
        ) && res.indentation_level == leading_ws_bytes(line.raw_text@) / 2),
        leading_ws_bytes(line.raw_text@) % 2 != 0 ==> (r matches Err(
            ParseError::InvalidIndentation { message, file, line: n },
        ) && message@ == odd_indentation_message(leading_ws_bytes(line.raw_text@)) && file
            == line.file_path && n == line.line_number),
{
    let chars = chars_of(line.raw_text);
    let k = leading_ws_len(chars.as_slice());
    proof {
        lemma_utf8_len_prefix_le(chars@, k as int);
    }
    let leading_spaces = utf8_len_of_prefix(chars.as_slice(), k);
    if leading_spaces % 2 != 0 {
        let mut message = chars_of("found ");
        push_decimal(&mut message, leading_spaces as u64);
        let tail = chars_of(" spaces.");
        push_all(&mut message, tail.as_slice());
        return Err(
            ParseError::InvalidIndentation {
                message: string_from_chars(message.as_slice()),
                file: line.file_path,
                line: line.line_number,
            },
        );
    }
    let trimmed = trim_chars(chars.as_slice());
    Ok(ParseResult { string: string_from_chars(trimmed.as_slice()), indentation_level: leading_spaces / 2 })
}

} // verus!
