//! Parser for go-to-section commands (`-> Section`, `-> .. \ Sibling`).
use vstd::prelude::*;

use super::{FeatureParser, ParserContext};
use crate::error::ParseError;
use crate::text::{
    chars_of, contains_char, count_char, count_char_in, has_prefix, slice_chars, split_chars,
    split_on, starts_with, string_from_chars, trim, trim_chars, trim_end, trim_end_chars,
    trim_start, trim_start_chars,
};

verus! {

/// Parser for go-to-section commands.
#[derive(Debug, Default)]
pub struct GoToSectionParser;

/// The target path of a go-to-section command.
#[derive(Debug)]
pub struct GoToSectionParseResult {
    pub path: String,
}

/// The message for a go-to without a target.
pub open spec fn missing_target_message() -> Seq<char> {
    "Expected section name after '->'"@
}

/// The message for badly spaced path separators.
pub open spec fn spacing_message() -> Seq<char> {
    "Expected section names separated by ' \\\\ '"@
}

/// The path separator.
pub open spec fn path_separator() -> Seq<char> {
    " \\ "@
}

/// The spacing rules of a go-to path: it does not end (ignoring trailing
/// whitespace) with `\`, and if it holds any `\`, splitting on ` \ ` yields
/// one more piece than there are backslashes and no piece is blank.
pub open spec fn path_spacing_ok(path: Seq<char>) -> bool {
    let t = trim_end(path);
    let parts = split_on(path, path_separator());
    &&& !(t.len() > 0 && t.last() == '\\')
    &&& path.contains('\\') ==> {
        &&& parts.len() == count_char(path, '\\') + 1
        &&& forall|i: int| 0 <= i < parts.len() ==> trim(#[trigger] parts[i]).len() > 0
    }
}

impl GoToSectionParser {
    pub fn new() -> Self {
        GoToSectionParser
    }

    /// Whether a line is a go-to-section command (starts with `->` after
    /// leading whitespace).
    pub fn is_go_to_section(input: &str) -> (b: bool)
        ensures
            b == has_prefix(trim_start(input@), "->"@),
    {
        let chars = chars_of(input);
        let t = trim_start_chars(chars.as_slice());
        let arrow = chars_of("->");
        starts_with(t.as_slice(), arrow.as_slice())
    }

    /// Validate the spacing rules of a path.
    pub(crate) fn validate_path_spacing(path: &[char]) -> (r: Result<(), String>)
        ensures
            path_spacing_ok(path@) ==> r is Ok,
            !path_spacing_ok(path@) ==> (r matches Err(m) && m@ == spacing_message()),
    {
        let message = chars_of("Expected section names separated by ' \\\\ '");
        let t = trim_end_chars(path);
        if t.len() > 0 && t[t.len() - 1] == '\\' {
            return Err(string_from_chars(message.as_slice()));
        }
        if contains_char(path, '\\') {
            let sep = chars_of(" \\ ");
            proof {
                reveal_strlit(" \\ ");
            }
            let parts = split_chars(path, sep.as_slice());
            let backslash_count = count_char_in(path, '\\');
            if parts.len() - 1 != backslash_count {
                return Err(string_from_chars(message.as_slice()));
            }
            let mut i: usize = 0;
            while i < parts.len()
                invariant
                    0 <= i <= parts@.len(),
                    parts@.len() == split_on(path@, sep@).len(),
                    forall|k: int| 0 <= k < parts@.len() ==> #[trigger] parts@[k]@ == split_on(path@, sep@)[k],
                    forall|k: int| 0 <= k < i ==> trim(#[trigger] split_on(path@, sep@)[k]).len() > 0,
                    message@ == spacing_message(),
                    sep@ == path_separator(),
                    path@.contains('\\'),
                decreases parts.len() - i,
            {
                let p = trim_chars(parts[i].as_slice());
                if p.len() == 0 {
                    assert(parts@[i as int]@ == split_on(path@, sep@)[i as int]);
                    assert(trim(split_on(path@, path_separator())[i as int]).len() == 0);
                    return Err(string_from_chars(message.as_slice()));
                }
                i = i + 1;
            }
        }
        Ok(())
    }
}

impl FeatureParser for GoToSectionParser {
    type Output = Option<GoToSectionParseResult>;
    type Error = ParseError;

    /// `None` for a line that is not a go-to; otherwise the path after `-> `,
    /// which must be present, non-blank and correctly spaced.
    fn parse(&self, input: &str, context: &mut ParserContext) -> (r: Result<Option<GoToSectionParseResult>, ParseError>)
        ensures
            ({
                let t = trim_start(input@);
                let path = t.skip(3);
                if !has_prefix(t, "->"@) {
                    r matches Ok(None)
                } else if !has_prefix(t, "-> "@) || trim(path).len() == 0 {
                    r matches Err(ParseError::InvalidGoToSection { message, file, line })
                        && message@ == missing_target_message()
                        && file == old(context).file_path && line == old(context).current_line
                } else if !path_spacing_ok(path) {
                    r matches Err(ParseError::InvalidGoToSection { message, file, line })
                        && message@ == spacing_message()
                        && file == old(context).file_path && line == old(context).current_line
                } else {
                    r matches Ok(Some(res)) && res.path@ == path
                }
            }),
            *final(context) == *old(context),
    {
        let chars = chars_of(input);
        let t = trim_start_chars(chars.as_slice());
        let arrow = chars_of("->");
        if !starts_with(t.as_slice(), arrow.as_slice()) {
            return Ok(None);
        }
        let arrow_space = chars_of("-> ");
        let missing = chars_of("Expected section name after '->'");
        if !starts_with(t.as_slice(), arrow_space.as_slice()) {
            return Err(ParseError::InvalidGoToSection {
                message: string_from_chars(missing.as_slice()),
                file: context.file_path.clone(),
                line: context.current_line,
            });
        }
        proof {
            reveal_strlit("-> ");
        }
        let path = slice_chars(t.as_slice(), 3, t.len());
        assert(path@ =~= t@.skip(3));
        let trimmed = trim_chars(path.as_slice());
        if trimmed.len() == 0 {
            return Err(ParseError::InvalidGoToSection {
                message: string_from_chars(missing.as_slice()),
                file: context.file_path.clone(),
                line: context.current_line,
            });
        }
        match Self::validate_path_spacing(path.as_slice()) {
            Err(msg) => {
                return Err(ParseError::InvalidGoToSection {
                    message: msg,
                    file: context.file_path.clone(),
                    line: context.current_line,
                });
            },
            Ok(()) => {},
        }
        Ok(Some(GoToSectionParseResult { path: string_from_chars(path.as_slice()) }))
    }
}

} // verus!
