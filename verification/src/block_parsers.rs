//! Line-to-block parsers: each reads one script line and, when the line is
//! of its kind, gives the blocks it makes and the strings they refer to.
use vstd::prelude::*;

use crate::database::{Block, BlockType};
use crate::error::ParseError;
use crate::line_parser::{leading_ws_bytes, odd_indentation_message, parse as parse_line, Line};
use crate::parsers::section_parser::{hash_prefix_len, lemma_hash_prefix_len_is, title_parts};
use crate::text::{find_char, slice_chars, string_from_chars, trim, trim_chars, utf8_len, chars_of};

verus! {

/// A section heading: its id, display name, indentation level and depth
/// (the number of `#`).
#[derive(Debug, Clone, PartialEq, Eq)]
pub struct SectionHeading {
    pub id: String,
    pub display_name: String,
    pub level: usize,
    pub hash_count: usize,
}

/// Reads `#`-headed lines.
pub struct SectionParser;

/// The title of a trimmed heading line: what follows its `#`s, trimmed.
pub open spec fn heading_title(s: Seq<char>) -> Seq<char> {
    trim(s.skip(hash_prefix_len(s) as int))
}

impl SectionParser {
    /// `None` for a line that does not start with `#` (after its
    /// indentation); the indentation error of [`parse_line`] for a heading
    /// with odd indentation; `SectionWithoutTitle` at `file_path` and
    /// `line_number` for a heading with no title; otherwise the heading,
    /// whose id is the part of the title before its first `:` and display
    /// name the part after (both trimmed), or the whole title for both.
    pub fn parse(
        line: Line,
        _level: usize,
        file_path: Option<String>,
        line_number: usize,
    ) -> (r: Result<Option<SectionHeading>, ParseError>)
        requires
            utf8_len(line.raw_text@) <= usize::MAX,
        ensures
            ({
                let s = trim(line.raw_text@);
                let title = heading_title(s);
                if !(s.len() > 0 && s[0] == '#') {
                    r matches Ok(None)
                } else if leading_ws_bytes(line.raw_text@) % 2 != 0 {
                    r matches Err(ParseError::InvalidIndentation { message, file, line: n })
                        && message@ == odd_indentation_message(leading_ws_bytes(line.raw_text@))
                        && file == line.file_path && n == line.line_number
                } else if title.len() == 0 {
                    r matches Err(ParseError::SectionWithoutTitle { file, line: n }) && file == file_path
                        && n == line_number
                } else {
                    r matches Ok(Some(h)) && h.id@ == title_parts(title).0
                        && h.display_name@ == title_parts(title).1
                        && h.level == leading_ws_bytes(line.raw_text@) / 2
                        && h.hash_count == hash_prefix_len(s)
                }
            }),
    {
        let raw = chars_of(line.raw_text);
        let s0 = trim_chars(raw.as_slice());
        if !(s0.len() > 0 && s0[0] == '#') {
            return Ok(None);
        }
        let result = match parse_line(line) {
            Ok(res) => res,
            Err(e) => return Err(e),
        };
        let s = chars_of(result.string.as_str());
        let mut hash_count: usize = 0;
        while hash_count < s.len() && s[hash_count] == '#'
            invariant
                0 <= hash_count <= s@.len(),
                forall|j: int| 0 <= j < hash_count ==> #[trigger] s@[j] == '#',
            decreases s.len() - hash_count,
        {
            hash_count = hash_count + 1;
        }
        proof {
            lemma_hash_prefix_len_is(s@, hash_count as int);
        }
        let after = slice_chars(s.as_slice(), hash_count, s.len());
        assert(after@ =~= s@.skip(hash_count as int));
        let rest = trim_chars(after.as_slice());
        if rest.len() == 0 {
            return Err(ParseError::SectionWithoutTitle { file: file_path, line: line_number });
        }
        match find_char(rest.as_slice(), ':') {
            Some(i) => {
                proof {
                    assert(rest@.contains(':'));
                    let w = choose|w: int|
                        0 <= w < rest@.len() && rest@[w] == ':' && forall|j: int| 0 <= j < w ==> rest@[j] != ':';
                    if w < i {
                        assert(rest@[w] != ':');
                    } else if w > i {
                        assert(rest@[i as int] != ':');
                    }
                }
                let left = slice_chars(rest.as_slice(), 0, i);
                let right = slice_chars(rest.as_slice(), i + 1, rest.len());
                assert(left@ =~= rest@.take(i as int));
                assert(right@ =~= rest@.skip(i + 1));
                let id = trim_chars(left.as_slice());
                let name = trim_chars(right.as_slice());
                Ok(Some(SectionHeading {
                    id: string_from_chars(id.as_slice()),
                    display_name: string_from_chars(name.as_slice()),
                    level: result.indentation_level,
                    hash_count,
                }))
            },
            None => Ok(Some(SectionHeading {
                id: string_from_chars(rest.as_slice()),
                display_name: string_from_chars(rest.as_slice()),
                level: result.indentation_level,
                hash_count,
            })),
        }
    }
}

/// Reads lines of text.
pub struct StringParser;

impl StringParser {
    /// `None` for a line with odd indentation or no text; otherwise one
    /// string block at `level` (its string id is 0, for the caller to set)
    /// and the line's trimmed text.
    pub fn parse(line: Line, level: usize) -> (r: Option<(Vec<Block>, Vec<String>)>)
        requires
            utf8_len(line.raw_text@) <= usize::MAX,
        ensures
            (leading_ws_bytes(line.raw_text@) % 2 != 0 || trim(line.raw_text@).len() == 0) ==> r is None,
            (leading_ws_bytes(line.raw_text@) % 2 == 0 && trim(line.raw_text@).len() > 0) ==> (r matches Some(
                (blocks, strings),
            ) && blocks@.len() == 1 && blocks@[0].block_type == BlockType::String(0)
                && blocks@[0].parent_id is None && blocks@[0].children@.len() == 0
                && blocks@[0].level == level && strings@.len() == 1 && strings@[0]@ == trim(
                line.raw_text@,
            )),
    {
        let result = match parse_line(line) {
            Ok(res) => res,
            Err(_) => return None,
        };
        if result.string.as_str().unicode_len() == 0 {
            return None;
        }
        let mut blocks: Vec<Block> = Vec::new();
        blocks.push(Block::new(BlockType::String(0), None, level));
        let mut strings: Vec<String> = Vec::new();
        strings.push(result.string);
        Some((blocks, strings))
    }
}

} // verus!
