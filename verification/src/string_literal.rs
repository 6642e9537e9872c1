//! Shared double-quoted string-literal scanner.
//!
//! Both string-variable defaults and string `set` literals accept the same
//! surface syntax: a single double-quoted literal recognizing the `\"`, `\n`
//! and `\\` escapes. The scanner parses one literal that occupies the whole
//! input (modulo trailing whitespace); anything else after the closing quote
//! is reported as [`StringLiteralError::TrailingCharacters`].
use vstd::prelude::*;

use crate::text::{chars_of, slice_chars, string_from_chars, trim, trim_chars};

verus! {

/// Failure modes of [`parse_string_literal`].
#[derive(Debug, Clone, PartialEq, Eq)]
pub enum StringLiteralError {
    /// The literal opened a double quote but never closed it.
    Unterminated,
    /// A backslash was followed by a character other than `"`, `n`, or `\`.
    InvalidEscape { sequence: String },
    /// Non-whitespace text followed the closing quote (e.g. `"a" "b"`).
    TrailingCharacters,
}

/// What scanning a literal body yields, as a mathematical value.
pub enum LiteralScan {
    /// The closing quote was found: the unescaped value and the text after the quote.
    Closed(Seq<char>, Seq<char>),
    Unterminated,
    InvalidEscape(Seq<char>),
}

/// The character an escape `\c` stands for, if `c` is a supported escape.
pub open spec fn escape_value(c: char) -> Option<char> {
    if c == '"' {
        Some('"')
    } else if c == 'n' {
        Some('\n')
    } else if c == '\\' {
        Some('\\')
    } else {
        None
    }
}

/// Scans the body of a literal (the text after the opening quote),
/// appending unescaped characters to `acc`.
pub open spec fn scan_body(s: Seq<char>, acc: Seq<char>) -> LiteralScan
    decreases s.len(),
{
    if s.len() == 0 {
        LiteralScan::Unterminated
    } else if s[0] == '"' {
        LiteralScan::Closed(acc, s.drop_first())
    } else if s[0] == '\\' {
        if s.len() < 2 {
            LiteralScan::Unterminated
        } else {
            match escape_value(s[1]) {
                Some(v) => scan_body(s.skip(2), acc.push(v)),
                None => LiteralScan::InvalidEscape(seq!['\\', s[1]]),
            }
        }
    } else {
        scan_body(s.drop_first(), acc.push(s[0]))
    }
}

/// The body of a literal that reads back as `s`: `"`, newline and
/// backslash escaped, every other character as it is.
pub open spec fn escaped(s: Seq<char>) -> Seq<char>
    decreases s.len(),
{
    if s.len() == 0 {
        seq![]
    } else {
        let c = s[0];
        let e = if c == '"' {
            seq!['\\', '"']
        } else if c == '\n' {
            seq!['\\', 'n']
        } else if c == '\\' {
            seq!['\\', '\\']
        } else {
            seq![c]
        };
        e + escaped(s.drop_first())
    }
}

proof fn lemma_scan_escaped(s: Seq<char>, rest: Seq<char>, acc: Seq<char>)
    ensures
        scan_body(escaped(s) + seq!['"'] + rest, acc) == LiteralScan::Closed(acc + s, rest),
    decreases s.len(),
{
    if s.len() == 0 {
        assert(escaped(s) + seq!['"'] + rest =~= seq!['"'] + rest);
        assert((seq!['"'] + rest).drop_first() =~= rest);
        assert(acc + s =~= acc);
    } else {
        let c = s[0];
        let tail = escaped(s.drop_first()) + seq!['"'] + rest;
        lemma_scan_escaped(s.drop_first(), rest, acc.push(c));
        assert(acc.push(c) + s.drop_first() =~= acc + s);
        if c == '"' || c == '\n' || c == '\\' {
            let e = if c == '"' { seq!['\\', '"'] } else if c == '\n' { seq!['\\', 'n'] } else { seq!['\\', '\\'] };
            assert(escaped(s) + seq!['"'] + rest =~= e + tail);
            assert((e + tail).skip(2) =~= tail);
        } else {
            assert(escaped(s) + seq!['"'] + rest =~= seq![c] + tail);
            assert((seq![c] + tail).drop_first() =~= tail);
        }
    }
}

/// A literal written from any text, with its specials escaped and only
/// whitespace after its closing quote, reads back as that text.
pub proof fn lemma_literal_round_trip(s: Seq<char>, tail: Seq<char>, r: Result<String, StringLiteralError>)
    requires
        trim(tail).len() == 0,
    ensures
        literal_result_matches(seq!['"'] + escaped(s) + seq!['"'] + tail, r) <==> (r matches Ok(v) && v@ == s),
{
    let input = seq!['"'] + escaped(s) + seq!['"'] + tail;
    assert(input.drop_first() =~= escaped(s) + seq!['"'] + tail);
    lemma_scan_escaped(s, tail, seq![]);
    assert(seq![] + s =~= s);
}

/// Whether `r` is what reading the literal at the start of `input` gives
/// (its first character is `"`).
pub open spec fn literal_result_matches(
    input: Seq<char>,
    r: Result<String, StringLiteralError>,
) -> bool {
    match scan_body(input.drop_first(), seq![]) {
        LiteralScan::Closed(value, rest) => if trim(rest).len() == 0 {
            r matches Ok(v) && v@ == value
        } else {
            r matches Err(StringLiteralError::TrailingCharacters)
        },
        LiteralScan::Unterminated => r matches Err(StringLiteralError::Unterminated),
        LiteralScan::InvalidEscape(seq) => r matches Err(StringLiteralError::InvalidEscape { sequence })
            && sequence@ == seq,
    }
}

/// Parse a double-quoted string literal that occupies the whole `input`.
///
/// The caller has trimmed `input` and checked its leading `"`.
/// Recognizes the `\"`, `\n`, and `\\` escapes; any other backslash sequence
/// is an `InvalidEscape`. A missing closing quote is `Unterminated`, and any
/// non-whitespace after the closing quote is `TrailingCharacters`.
pub fn parse_string_literal(input: &str) -> (r: Result<String, StringLiteralError>)
    requires
        input@.len() > 0,
        input@[0] == '"',
    ensures
        literal_result_matches(input@, r),
{
    let chars = chars_of(input);
    let (r, _) = scan_literal_chars(chars.as_slice());
    r
}

/// Scans a literal held as characters; also returns the index just after the
/// closing quote when the literal is closed.
pub fn scan_literal_chars(chars: &[char]) -> (out: (Result<String, StringLiteralError>, usize))
    requires
        chars@.len() > 0,
        chars@[0] == '"',
    ensures
        literal_result_matches(chars@, out.0),
{
    let ghost body = chars@.drop_first();
    let mut value: Vec<char> = Vec::new();
    let mut i: usize = 1;
    loop
        invariant
            1 <= i <= chars@.len(),
            body == chars@.drop_first(),
            scan_body(body, seq![]) == scan_body(chars@.skip(i as int), value@),
        decreases chars@.len() - i,
    {
        proof {
            reveal_with_fuel(scan_body, 2);
        }
        if i >= chars.len() {
            return (Err(StringLiteralError::Unterminated), i);
        }
        let c = chars[i];
        if c == '"' {
            assert(chars@.skip(i as int).drop_first() =~= chars@.skip(i + 1));
            let rest = slice_chars(chars, i + 1, chars.len());
            assert(rest@ =~= chars@.skip(i + 1));
            let t = trim_chars(rest.as_slice());
            if t.len() == 0 {
                return (Ok(string_from_chars(value.as_slice())), i + 1);
            } else {
                return (Err(StringLiteralError::TrailingCharacters), i + 1);
            }
        } else if c == '\\' {
            if i + 1 >= chars.len() {
                return (Err(StringLiteralError::Unterminated), i);
            }
            let e = chars[i + 1];
            assert(chars@.skip(i as int)[1] == e);
            if e == '"' {
                value.push('"');
            } else if e == 'n' {
                value.push('\n');
            } else if e == '\\' {
                value.push('\\');
            } else {
                let seq_chars: Vec<char> = vec!['\\', e];
                assert(seq_chars@ =~= seq!['\\', e]);
                return (
                    Err(StringLiteralError::InvalidEscape { sequence: string_from_chars(seq_chars.as_slice()) }),
                    i,
                );
            }
            assert(chars@.skip(i as int).skip(2) =~= chars@.skip(i + 2));
            i = i + 2;
        } else {
            value.push(c);
            assert(chars@.skip(i as int).drop_first() =~= chars@.skip(i + 1));
            i = i + 1;
        }
    }
}

} // verus!
