//! Recognizing statements that begin with a keyword (`set`, `req`).
use vstd::prelude::*;

use crate::text::{
    chars_eq, has_prefix, is_ascii_whitespace, is_ascii_ws, slice_chars, starts_with, trim_start,
    trim_start_chars,
};

verus! {

/// How a line relates to a leading keyword.
pub enum StripOutcome {
    /// The keyword, ASCII whitespace, then this text (leading whitespace removed).
    Stripped(Seq<char>),
    /// Exactly the keyword.
    BareKeyword,
    /// Anything else.
    NotKeyword,
}

/// Strip a leading keyword followed by one ASCII whitespace character
/// (a space or a tab, for instance).
pub open spec fn strip_keyword_spec(content: Seq<char>, keyword: Seq<char>) -> StripOutcome {
    if content == keyword {
        StripOutcome::BareKeyword
    } else if !has_prefix(content, keyword) {
        StripOutcome::NotKeyword
    } else {
        let rest = content.skip(keyword.len() as int);
        if rest.len() > 0 && is_ascii_ws(rest[0]) {
            StripOutcome::Stripped(trim_start(rest.drop_first()))
        } else {
            StripOutcome::NotKeyword
        }
    }
}

/// Whether `content` is the keyword alone or the keyword followed by ASCII
/// whitespace.
pub open spec fn is_keyword_line(content: Seq<char>, keyword: Seq<char>) -> bool {
    !(strip_keyword_spec(content, keyword) is NotKeyword)
}

/// The outcome of stripping, with the remaining text as characters.
pub enum StripResult {
    Stripped(Vec<char>),
    BareKeyword,
    NotKeyword,
}

/// Strip `keyword` from the start of `content`.
pub fn strip_keyword(content: &[char], keyword: &[char]) -> (r: StripResult)
    ensures
        match strip_keyword_spec(content@, keyword@) {
            StripOutcome::Stripped(rest) => r matches StripResult::Stripped(v) && v@ == rest,
            StripOutcome::BareKeyword => r is BareKeyword,
            StripOutcome::NotKeyword => r is NotKeyword,
        },
{
    if chars_eq(content, keyword) {
        return StripResult::BareKeyword;
    }
    if !starts_with(content, keyword) {
        return StripResult::NotKeyword;
    }
    let rest = slice_chars(content, keyword.len(), content.len());
    assert(rest@ =~= content@.skip(keyword@.len() as int));
    if rest.len() > 0 && is_ascii_whitespace(rest[0]) {
        let after = slice_chars(rest.as_slice(), 1, rest.len());
        assert(after@ =~= rest@.drop_first());
        StripResult::Stripped(trim_start_chars(after.as_slice()))
    } else {
        StripResult::NotKeyword
    }
}

} // verus!
