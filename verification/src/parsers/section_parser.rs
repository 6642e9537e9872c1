//! Parser for section headers (`# Name`, `## id: Name`).
use vstd::prelude::*;

use super::{FeatureParser, ParserContext};
use crate::error::ParseError;
use crate::text::{
    chars_of, find_char, slice_chars, string_from_chars, trim, trim_chars, trim_start,
    trim_start_chars,
};

verus! {

/// Parser for section headers.
#[derive(Debug, Default)]
pub struct SectionParser;

/// A parsed section header.
#[derive(Debug)]
pub struct SectionParseResult {
    pub id: String,
    pub display_name: String,
    pub hash_count: usize,
    /// No `id:` was given: the id is the display name.
    pub id_is_implicit: bool,
}

/// Number of leading `#` characters of `s`.
pub open spec fn hash_prefix_len(s: Seq<char>) -> nat
    decreases s.len(),
{
    if s.len() > 0 && s[0] == '#' {
        1 + hash_prefix_len(s.drop_first())
    } else {
        0
    }
}

pub proof fn lemma_hash_prefix_len_is(s: Seq<char>, k: int)
    requires
        0 <= k <= s.len(),
        forall|j: int| 0 <= j < k ==> #[trigger] s[j] == '#',
        k == s.len() || s[k] != '#',
    ensures
        hash_prefix_len(s) == k,
    decreases k,
{
    if k > 0 {
        assert forall|j: int| 0 <= j < k - 1 implies #[trigger] s.drop_first()[j] == '#' by {
            assert(s.drop_first()[j] == s[j + 1]);
        }
        if k - 1 < s.drop_first().len() {
            assert(s.drop_first()[k - 1] == s[k]);
        }
        lemma_hash_prefix_len_is(s.drop_first(), k - 1);
    }
}

/// The title text of a header: what follows the `#`s, trimmed.
pub open spec fn header_title(s: Seq<char>) -> Seq<char> {
    let t = trim_start(s);
    trim(t.skip(hash_prefix_len(t) as int))
}

/// The title of a header without an explicit id, as written: what follows
/// the `#`s, less the one space that separates them from the title.
pub open spec fn raw_title(t: Seq<char>) -> Seq<char> {
    let after = t.skip(hash_prefix_len(t) as int);
    if after.len() > 0 && after[0] == ' ' {
        after.drop_first()
    } else {
        after
    }
}

/// The (id, display name) a title declares: `id: Name` splits at the first
/// `:`, both sides trimmed; otherwise the title is both.
pub open spec fn title_parts(rest: Seq<char>) -> (Seq<char>, Seq<char>) {
    if rest.contains(':') {
        let i = choose|i: int| 0 <= i < rest.len() && rest[i] == ':' && forall|j: int| 0 <= j < i ==> rest[j] != ':';
        (trim(rest.take(i)), trim(rest.skip(i + 1)))
    } else {
        (rest, rest)
    }
}

impl SectionParser {
    pub fn new() -> Self {
        SectionParser
    }

    /// Whether a line is a section header (starts with `#` after leading
    /// whitespace).
    pub fn is_section(input: &str) -> (b: bool)
        ensures
            b == (trim_start(input@).len() > 0 && trim_start(input@)[0] == '#'),
    {
        let chars = chars_of(input);
        let t = trim_start_chars(chars.as_slice());
        t.len() > 0 && t[0] == '#'
    }
}

impl FeatureParser for SectionParser {
    type Output = Option<SectionParseResult>;
    type Error = ParseError;

    /// `None` for a line that is not a header; a header with an empty title
    /// is an error; otherwise its id, display name and depth (`#` count).
    /// An explicit `id: Name` is trimmed on both sides; a title without an
    /// id is kept as written, so that the caller can report stray spaces.
    fn parse(&self, input: &str, context: &mut ParserContext) -> (r: Result<Option<SectionParseResult>, ParseError>)
        ensures
            ({
                let t = trim_start(input@);
                let rest = header_title(input@);
                if !(t.len() > 0 && t[0] == '#') {
                    r matches Ok(None)
                } else if rest.len() == 0 {
                    r matches Err(ParseError::SectionWithoutTitle { file, line })
                        && file == old(context).file_path && line == old(context).current_line
                } else if rest.contains(':') {
                    r matches Ok(Some(res)) && res.id@ == title_parts(rest).0
                        && res.display_name@ == title_parts(rest).1
                        && res.hash_count == hash_prefix_len(t)
                        && !res.id_is_implicit
                } else {
                    r matches Ok(Some(res)) && res.id@ == raw_title(t)
                        && res.display_name@ == raw_title(t)
                        && res.hash_count == hash_prefix_len(t)
                        && res.id_is_implicit
                }
            }),
            *final(context) == *old(context),
    {
        let chars = chars_of(input);
        let t = trim_start_chars(chars.as_slice());
        if !(t.len() > 0 && t[0] == '#') {
            return Ok(None);
        }
        let mut hash_count: usize = 0;
        while hash_count < t.len() && t[hash_count] == '#'
            invariant
                0 <= hash_count <= t@.len(),
                forall|j: int| 0 <= j < hash_count ==> #[trigger] t@[j] == '#',
            decreases t.len() - hash_count,
        {
            hash_count = hash_count + 1;
        }
        proof {
            lemma_hash_prefix_len_is(t@, hash_count as int);
        }
        let after = slice_chars(t.as_slice(), hash_count, t.len());
        assert(after@ =~= t@.skip(hash_count as int));
        let rest = trim_chars(after.as_slice());
        if rest.len() == 0 {
            return Err(ParseError::SectionWithoutTitle { file: context.file_path.clone(), line: context.current_line });
        }
        match find_char(rest.as_slice(), ':') {
            Some(i) => {
                proof {
                    assert(rest@.contains(':'));
                    let w = choose|w: int| 0 <= w < rest@.len() && rest@[w] == ':' && forall|j: int| 0 <= j < w ==> rest@[j] != ':';
                    if w < i {
                        assert(rest@[w] != ':');
                    } else if w > i {
                        assert(rest@[i as int] != ':');
                    }
                }
                let left = slice_chars(rest.as_slice(), 0, i);
                let right = slice_chars(rest.as_slice(), i + 1, rest.len());
                assert(left@ =~= rest@.take(i as int));
                assert(right@ =~= rest@.skip(i + 1));
                let id = trim_chars(left.as_slice());
                let name = trim_chars(right.as_slice());
                Ok(Some(SectionParseResult {
                    id: string_from_chars(id.as_slice()),
                    display_name: string_from_chars(name.as_slice()),
                    hash_count,
                    id_is_implicit: false,
                }))
            },
            None => {
                let start: usize = if after.len() > 0 && after[0] == ' ' { 1 } else { 0 };
                let raw = slice_chars(after.as_slice(), start, after.len());
                proof {
                    if start == 1 {
                        assert(raw@ =~= after@.drop_first());
                    } else {
                        assert(raw@ =~= after@);
                    }
                }
                Ok(Some(SectionParseResult {
                    id: string_from_chars(raw.as_slice()),
                    display_name: string_from_chars(raw.as_slice()),
                    hash_count,
                    id_is_implicit: true,
                }))
            },
        }
    }
}

} // verus!
