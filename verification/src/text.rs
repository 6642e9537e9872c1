//! Character classes, trimming and small text utilities shared by the parsers.
//!
//! Text is modelled as a `Seq<char>` (the view of `str` and `String`).
//! Whitespace follows Rust's `char::is_whitespace` (the Unicode
//! `White_Space` property), and byte lengths follow UTF-8.
use vstd::prelude::*;

verus! {

// ---------------------------------------------------------------------------
// Character classes
// ---------------------------------------------------------------------------

/// The Unicode `White_Space` property, which `char::is_whitespace` implements.
pub open spec fn is_ws(c: char) -> bool {
    let v = c as u32;
    ||| (0x09 <= v && v <= 0x0D)
    ||| v == 0x20
    ||| v == 0x85
    ||| v == 0xA0
    ||| v == 0x1680
    ||| (0x2000 <= v && v <= 0x200A)
    ||| v == 0x2028
    ||| v == 0x2029
    ||| v == 0x202F
    ||| v == 0x205F
    ||| v == 0x3000
}

/// ASCII whitespace as `char::is_ascii_whitespace` defines it
/// (space, tab, line feed, form feed, carriage return).
pub open spec fn is_ascii_ws(c: char) -> bool {
    c == ' ' || c == '\t' || c == '\n' || c == '\x0C' || c == '\r'
}

pub open spec fn is_digit(c: char) -> bool {
    '0' <= c && c <= '9'
}

pub open spec fn is_alpha(c: char) -> bool {
    ('a' <= c && c <= 'z') || ('A' <= c && c <= 'Z')
}

pub open spec fn is_alnum(c: char) -> bool {
    is_alpha(c) || is_digit(c)
}

/// `char::is_whitespace`.
pub fn is_whitespace(c: char) -> (b: bool)
    ensures
        b == is_ws(c),
{
    let v = c as u32;
    (0x09 <= v && v <= 0x0D) || v == 0x20 || v == 0x85 || v == 0xA0 || v == 0x1680 || (0x2000
        <= v && v <= 0x200A) || v == 0x2028 || v == 0x2029 || v == 0x202F || v == 0x205F || v
        == 0x3000
}

/// `char::is_ascii_whitespace`.
pub fn is_ascii_whitespace(c: char) -> (b: bool)
    ensures
        b == is_ascii_ws(c),
{
    c == ' ' || c == '\t' || c == '\n' || c == '\x0C' || c == '\r'
}

/// `char::is_ascii_digit`.
pub fn is_ascii_digit(c: char) -> (b: bool)
    ensures
        b == is_digit(c),
{
    '0' <= c && c <= '9'
}

/// `char::is_ascii_alphabetic`.
pub fn is_ascii_alphabetic(c: char) -> (b: bool)
    ensures
        b == is_alpha(c),
{
    ('a' <= c && c <= 'z') || ('A' <= c && c <= 'Z')
}

/// `char::is_ascii_alphanumeric`.
pub fn is_ascii_alphanumeric(c: char) -> (b: bool)
    ensures
        b == is_alnum(c),
{
    ('a' <= c && c <= 'z') || ('A' <= c && c <= 'Z') || ('0' <= c && c <= '9')
}

// ---------------------------------------------------------------------------
// Trimming
// ---------------------------------------------------------------------------

/// Number of leading whitespace characters of `s`.
pub open spec fn ws_prefix_len(s: Seq<char>) -> nat
    decreases s.len(),
{
    if s.len() > 0 && is_ws(s[0]) {
        1 + ws_prefix_len(s.drop_first())
    } else {
        0
    }
}

/// Number of trailing whitespace characters of `s`.
pub open spec fn ws_suffix_len(s: Seq<char>) -> nat
    decreases s.len(),
{
    if s.len() > 0 && is_ws(s.last()) {
        1 + ws_suffix_len(s.drop_last())
    } else {
        0
    }
}

/// `str::trim_start`.
pub open spec fn trim_start(s: Seq<char>) -> Seq<char> {
    s.skip(ws_prefix_len(s) as int)
}

/// `str::trim_end`.
pub open spec fn trim_end(s: Seq<char>) -> Seq<char> {
    s.take(s.len() - ws_suffix_len(s))
}

/// `str::trim`.
pub open spec fn trim(s: Seq<char>) -> Seq<char> {
    trim_end(trim_start(s))
}

pub proof fn lemma_ws_prefix_len_bound(s: Seq<char>)
    ensures
        ws_prefix_len(s) <= s.len(),
        forall|j: int| 0 <= j < ws_prefix_len(s) ==> is_ws(#[trigger] s[j]),
        ws_prefix_len(s) < s.len() ==> !is_ws(s[ws_prefix_len(s) as int]),
    decreases s.len(),
{
    if s.len() > 0 && is_ws(s[0]) {
        lemma_ws_prefix_len_bound(s.drop_first());
        assert forall|j: int| 0 <= j < ws_prefix_len(s) implies is_ws(#[trigger] s[j]) by {
            if j > 0 {
                assert(s[j] == s.drop_first()[j - 1]);
            }
        }
    }
}

pub proof fn lemma_ws_suffix_len_bound(s: Seq<char>)
    ensures
        ws_suffix_len(s) <= s.len(),
        forall|j: int| s.len() - ws_suffix_len(s) <= j < s.len() ==> is_ws(#[trigger] s[j]),
        ws_suffix_len(s) < s.len() ==> !is_ws(s[s.len() - ws_suffix_len(s) - 1]),
    decreases s.len(),
{
    if s.len() > 0 && is_ws(s.last()) {
        lemma_ws_suffix_len_bound(s.drop_last());
        assert forall|j: int| s.len() - ws_suffix_len(s) <= j < s.len() implies is_ws(
            #[trigger] s[j],
        ) by {
            if j < s.len() - 1 {
                assert(s[j] == s.drop_last()[j]);
            }
        }
    }
}

/// `ws_prefix_len` is determined by the position of the first non-whitespace character.
pub proof fn lemma_ws_prefix_len_is(s: Seq<char>, k: int)
    requires
        0 <= k <= s.len(),
        forall|j: int| 0 <= j < k ==> is_ws(#[trigger] s[j]),
        k == s.len() || !is_ws(s[k]),
    ensures
        ws_prefix_len(s) == k,
    decreases k,
{
    if k > 0 {
        assert forall|j: int| 0 <= j < k - 1 implies is_ws(#[trigger] s.drop_first()[j]) by {
            assert(s.drop_first()[j] == s[j + 1]);
        }
        if k - 1 < s.drop_first().len() {
            assert(s.drop_first()[k - 1] == s[k]);
        }
        lemma_ws_prefix_len_is(s.drop_first(), k - 1);
    }
}

/// `ws_suffix_len` is determined by the position of the last non-whitespace character.
pub proof fn lemma_ws_suffix_len_is(s: Seq<char>, k: int)
    requires
        0 <= k <= s.len(),
        forall|j: int| s.len() - k <= j < s.len() ==> is_ws(#[trigger] s[j]),
        k == s.len() || !is_ws(s[s.len() - k - 1]),
    ensures
        ws_suffix_len(s) == k,
    decreases k,
{
    if k > 0 {
        let t = s.drop_last();
        assert forall|j: int| t.len() - (k - 1) <= j < t.len() implies is_ws(#[trigger] t[j]) by {
            assert(t[j] == s[j]);
        }
        if k - 1 < t.len() {
            assert(t[t.len() - (k - 1) - 1] == s[s.len() - k - 1]);
        }
        lemma_ws_suffix_len_is(t, k - 1);
    }
}

/// Index of the first non-whitespace character of `s` (its length if none).
pub fn leading_ws_len(s: &[char]) -> (k: usize)
    ensures
        k == ws_prefix_len(s@),
        k <= s@.len(),
{
    let mut k: usize = 0;
    while k < s.len() && is_whitespace(s[k])
        invariant
            0 <= k <= s@.len(),
            forall|j: int| 0 <= j < k ==> is_ws(#[trigger] s@[j]),
        decreases s.len() - k,
    {
        k = k + 1;
    }
    proof {
        lemma_ws_prefix_len_is(s@, k as int);
    }
    k
}

/// Number of trailing whitespace characters of `s`.
pub fn trailing_ws_len(s: &[char]) -> (k: usize)
    ensures
        k == ws_suffix_len(s@),
        k <= s@.len(),
{
    let mut k: usize = 0;
    while k < s.len() && is_whitespace(s[s.len() - k - 1])
        invariant
            0 <= k <= s@.len(),
            forall|j: int| s@.len() - k <= j < s@.len() ==> is_ws(#[trigger] s@[j]),
        decreases s.len() - k,
    {
        k = k + 1;
    }
    proof {
        lemma_ws_suffix_len_is(s@, k as int);
    }
    k
}

/// The characters of `s[start..end]`.
pub fn slice_chars(s: &[char], start: usize, end: usize) -> (out: Vec<char>)
    requires
        start <= end <= s@.len(),
    ensures
        out@ == s@.subrange(start as int, end as int),
{
    let mut out: Vec<char> = Vec::new();
    let mut i = start;
    while i < end
        invariant
            start <= i <= end <= s@.len(),
            out@ == s@.subrange(start as int, i as int),
        decreases end - i,
    {
        out.push(s[i]);
        i = i + 1;
    }
    out
}

/// `str::trim_start` on a character slice.
pub fn trim_start_chars(s: &[char]) -> (out: Vec<char>)
    ensures
        out@ == trim_start(s@),
{
    let k = leading_ws_len(s);
    slice_chars(s, k, s.len())
}

/// `str::trim_end` on a character slice.
pub fn trim_end_chars(s: &[char]) -> (out: Vec<char>)
    ensures
        out@ == trim_end(s@),
{
    let k = trailing_ws_len(s);
    slice_chars(s, 0, s.len() - k)
}

/// `str::trim` on a character slice.
pub fn trim_chars(s: &[char]) -> (out: Vec<char>)
    ensures
        out@ == trim(s@),
{
    let t = trim_start_chars(s);
    trim_end_chars(t.as_slice())
}

// ---------------------------------------------------------------------------
// Sequences of characters
// ---------------------------------------------------------------------------

/// The characters of `s`, in order.
pub fn chars_of(s: &str) -> (out: Vec<char>)
    ensures
        out@ == s@,
{
    let mut out: Vec<char> = Vec::new();
    for c in it: s.chars()
        invariant
            out@ == it.seq().take(it.index() as int),
    {
        out.push(c);
    }
    out
}

/// `String::from_iter` over characters.
#[verifier::external_body]
pub fn string_from_chars(chars: &[char]) -> (s: String)
    ensures
        s@ == chars@,
{
    chars.iter().collect()
}

/// Whether `s` begins with `prefix`.
pub open spec fn has_prefix(s: Seq<char>, prefix: Seq<char>) -> bool {
    prefix.len() <= s.len() && s.take(prefix.len() as int) == prefix
}

/// `str::starts_with` on character slices.
pub fn starts_with(s: &[char], prefix: &[char]) -> (b: bool)
    ensures
        b == has_prefix(s@, prefix@),
{
    if prefix.len() > s.len() {
        return false;
    }
    let mut i: usize = 0;
    while i < prefix.len()
        invariant
            prefix@.len() <= s@.len(),
            0 <= i <= prefix@.len(),
            forall|j: int| 0 <= j < i ==> s@[j] == prefix@[j],
        decreases prefix.len() - i,
    {
        if s[i] != prefix[i] {
            assert(s@.take(prefix@.len() as int)[i as int] != prefix@[i as int]);
            return false;
        }
        i = i + 1;
    }
    assert(s@.take(prefix@.len() as int) =~= prefix@);
    true
}

/// Whether two character slices are equal.
pub fn chars_eq(a: &[char], b: &[char]) -> (r: bool)
    ensures
        r == (a@ == b@),
{
    if a.len() != b.len() {
        return false;
    }
    let mut i: usize = 0;
    while i < a.len()
        invariant
            a@.len() == b@.len(),
            0 <= i <= a@.len(),
            forall|j: int| 0 <= j < i ==> a@[j] == b@[j],
        decreases a.len() - i,
    {
        if a[i] != b[i] {
            return false;
        }
        i = i + 1;
    }
    assert(a@ =~= b@);
    true
}

/// Whether two strings are equal.
pub fn str_eq(a: &str, b: &str) -> (r: bool)
    ensures
        r == (a@ == b@),
{
    let x = chars_of(a);
    let y = chars_of(b);
    chars_eq(x.as_slice(), y.as_slice())
}

/// Whether `s` contains the character `c`.
pub fn contains_char(s: &[char], c: char) -> (b: bool)
    ensures
        b == s@.contains(c),
{
    let mut i: usize = 0;
    while i < s.len()
        invariant
            0 <= i <= s@.len(),
            forall|j: int| 0 <= j < i ==> s@[j] != c,
        decreases s.len() - i,
    {
        if s[i] == c {
            assert(s@[i as int] == c);
            return true;
        }
        i = i + 1;
    }
    false
}

/// Index of the first occurrence of `c` in `s`.
pub fn find_char(s: &[char], c: char) -> (r: Option<usize>)
    ensures
        match r {
            Some(i) => i < s@.len() && s@[i as int] == c && forall|j: int|
                0 <= j < i ==> s@[j] != c,
            None => !s@.contains(c),
        },
{
    let mut i: usize = 0;
    while i < s.len()
        invariant
            0 <= i <= s@.len(),
            forall|j: int| 0 <= j < i ==> s@[j] != c,
        decreases s.len() - i,
    {
        if s[i] == c {
            return Some(i);
        }
        i = i + 1;
    }
    None
}

// ---------------------------------------------------------------------------
// Searching and splitting
// ---------------------------------------------------------------------------

/// Number of occurrences of `c` in `s`.
pub open spec fn count_char(s: Seq<char>, c: char) -> nat
    decreases s.len(),
{
    if s.len() == 0 {
        0
    } else {
        count_char(s.drop_last(), c) + if s.last() == c {
            1nat
        } else {
            0nat
        }
    }
}

/// Number of occurrences of `c` in `s`.
pub fn count_char_in(s: &[char], c: char) -> (n: usize)
    ensures
        n == count_char(s@, c),
{
    let mut n: usize = 0;
    let mut i: usize = 0;
    while i < s.len()
        invariant
            0 <= i <= s@.len(),
            n == count_char(s@.take(i as int), c),
            n <= i,
        decreases s.len() - i,
    {
        assert(s@.take(i + 1).drop_last() =~= s@.take(i as int));
        if s[i] == c {
            n = n + 1;
        }
        i = i + 1;
    }
    assert(s@.take(s@.len() as int) =~= s@);
    n
}

pub proof fn lemma_count_char_le(s: Seq<char>, c: char)
    ensures
        count_char(s, c) <= s.len(),
        s.contains(c) ==> count_char(s, c) >= 1,
    decreases s.len(),
{
    if s.len() > 0 {
        lemma_count_char_le(s.drop_last(), c);
        if s.contains(c) && s.last() != c {
            let i = choose|i: int| 0 <= i < s.len() && s[i] == c;
            assert(s.drop_last()[i] == c);
        }
    }
}

/// Whether `sep` occurs in `s` at index `j`.
pub open spec fn occurs_at(s: Seq<char>, sep: Seq<char>, j: int) -> bool {
    0 <= j && j + sep.len() <= s.len() && s.subrange(j, j + sep.len()) == sep
}

/// Index of the first occurrence of `sep` in `s`.
pub open spec fn find_sub(s: Seq<char>, sep: Seq<char>) -> Option<int> {
    if exists|j: int| #[trigger] occurs_at(s, sep, j) {
        Some(
            choose|j: int| #[trigger]
                occurs_at(s, sep, j) && forall|k: int| 0 <= k < j ==> !occurs_at(s, sep, k),
        )
    } else {
        None
    }
}

pub proof fn lemma_find_sub_is(s: Seq<char>, sep: Seq<char>, j: int)
    requires
        occurs_at(s, sep, j),
        forall|k: int| 0 <= k < j ==> !occurs_at(s, sep, k),
    ensures
        find_sub(s, sep) == Some(j),
{
    let w = choose|w: int| #[trigger]
        occurs_at(s, sep, w) && forall|k: int| 0 <= k < w ==> !occurs_at(s, sep, k);
    assert(occurs_at(s, sep, w));
    if w < j {
        assert(!occurs_at(s, sep, w));
    } else if w > j {
        assert(!occurs_at(s, sep, j));
    }
}

/// `s.split(sep)` for a non-empty separator: the pieces between
/// non-overlapping occurrences found left to right.
#[verifier::opaque]
pub open spec fn split_on(s: Seq<char>, sep: Seq<char>) -> Seq<Seq<char>>
    decreases s.len(),
{
    if sep.len() == 0 {
        seq![s]
    } else {
        match find_sub(s, sep) {
            None => seq![s],
            Some(j) => if 0 <= j && j + sep.len() <= s.len() {
                seq![s.take(j)] + split_on(s.skip(j + sep.len()), sep)
            } else {
                seq![s]
            },
        }
    }
}

/// Whether `sep` occurs in `s` at index `j` (executable).
pub fn occurs_at_index(s: &[char], sep: &[char], j: usize) -> (b: bool)
    ensures
        b == occurs_at(s@, sep@, j as int),
{
    if j > s.len() || sep.len() > s.len() - j {
        return false;
    }
    let mut i: usize = 0;
    while i < sep.len()
        invariant
            j + sep@.len() <= s@.len(),
            j + sep.len() <= s.len(),
            0 <= i <= sep@.len(),
            forall|k: int| 0 <= k < i ==> s@[j + k] == sep@[k],
        decreases sep.len() - i,
    {
        if s[j + i] != sep[i] {
            assert(s@.subrange(j as int, j + sep@.len())[i as int] != sep@[i as int]);
            return false;
        }
        i = i + 1;
    }
    assert(s@.subrange(j as int, j + sep@.len()) =~= sep@);
    true
}

/// Occurrences in a suffix are occurrences in the whole, shifted.
pub proof fn lemma_occurs_skip(s: Seq<char>, sep: Seq<char>, a: int, j: int)
    requires
        0 <= a <= s.len(),
    ensures
        occurs_at(s.skip(a), sep, j) == (j >= 0 && occurs_at(s, sep, a + j)),
{
    if j >= 0 && j + sep.len() <= s.len() - a {
        assert(s.skip(a).subrange(j, j + sep.len()) =~= s.subrange(a + j, a + j + sep.len()));
    }
}

/// One step of splitting: the first piece ends at the first occurrence.
pub proof fn lemma_split_step(s: Seq<char>, sep: Seq<char>, start: int, pos: int)
    requires
        sep.len() > 0,
        0 <= start <= pos <= s.len(),
        occurs_at(s, sep, pos),
        forall|k: int| 0 <= k < pos - start ==> !occurs_at(s.skip(start), sep, k),
    ensures
        split_on(s.skip(start), sep) == seq![s.subrange(start, pos)] + split_on(
            s.skip(pos + sep.len()),
            sep,
        ),
{
    reveal_with_fuel(split_on, 1);
    let rest = s.skip(start);
    lemma_occurs_skip(s, sep, start, pos - start);
    lemma_find_sub_is(rest, sep, pos - start);
    assert(rest.take(pos - start) =~= s.subrange(start, pos));
    assert(rest.skip(pos - start + sep.len()) =~= s.skip(pos + sep.len()));
}

/// Splitting never yields more pieces than characters plus one.
pub proof fn lemma_split_len_le(s: Seq<char>, sep: Seq<char>)
    requires
        sep.len() > 0,
    ensures
        split_on(s, sep).len() <= s.len() + 1,
    decreases s.len(),
{
    reveal_with_fuel(split_on, 1);
    match find_sub(s, sep) {
        None => {},
        Some(j) => if 0 <= j && j + sep.len() <= s.len() {
            lemma_split_len_le(s.skip(j + sep.len()), sep);
        },
    }
}

/// The last piece: no occurrence remains.
pub proof fn lemma_split_end(s: Seq<char>, sep: Seq<char>, start: int)
    requires
        sep.len() > 0,
        0 <= start <= s.len(),
        forall|k: int| 0 <= k < s.len() - start ==> !occurs_at(s.skip(start), sep, k),
    ensures
        split_on(s.skip(start), sep) == seq![s.skip(start)],
{
    let rest = s.skip(start);
    assert forall|j: int| !(#[trigger] occurs_at(rest, sep, j)) by {
        if 0 <= j < s.len() - start {
        } else {
            assert(!(j >= 0 && j + sep.len() <= rest.len()));
        }
    }
    assert(find_sub(rest, sep) == None::<int>);
    reveal_with_fuel(split_on, 1);
}

/// `s.split(sep)`, each piece as a vector of characters.
pub fn split_chars(s: &[char], sep: &[char]) -> (parts: Vec<Vec<char>>)
    requires
        sep@.len() > 0,
    ensures
        parts@.len() == split_on(s@, sep@).len(),
        parts@.len() >= 1,
        forall|i: int| 0 <= i < parts@.len() ==> #[trigger] parts@[i]@ == split_on(s@, sep@)[i],
{
    let mut parts: Vec<Vec<char>> = Vec::new();
    let mut start: usize = 0;
    let mut pos: usize = 0;
    let ghost mut done: Seq<Seq<char>> = seq![];
    assert(s@.skip(0) =~= s@);
    while pos < s.len()
        invariant
            sep@.len() > 0,
            0 <= start <= pos <= s@.len(),
            parts@.len() == done.len(),
            forall|i: int| 0 <= i < parts@.len() ==> #[trigger] parts@[i]@ == done[i],
            split_on(s@, sep@) == done + split_on(s@.skip(start as int), sep@),
            forall|k: int| 0 <= k < pos - start ==> !occurs_at(s@.skip(start as int), sep@, k),
        decreases s.len() - pos,
    {
        if occurs_at_index(s, sep, pos) {
            proof {
                lemma_split_step(s@, sep@, start as int, pos as int);
            }
            let piece = slice_chars(s, start, pos);
            parts.push(piece);
            proof {
                let old_done = done;
                done = done.push(s@.subrange(start as int, pos as int));
                assert(old_done + (seq![s@.subrange(start as int, pos as int)] + split_on(
                    s@.skip(pos + sep@.len()),
                    sep@,
                )) =~= done + split_on(s@.skip(pos + sep@.len()), sep@));
            }
            pos = pos + sep.len();
            start = pos;
        } else {
            proof {
                lemma_occurs_skip(s@, sep@, start as int, pos - start);
                assert forall|k: int| 0 <= k < pos + 1 - start implies !occurs_at(
                    s@.skip(start as int),
                    sep@,
                    k,
                ) by {
                    if k < pos - start {
                    }
                }
            }
            pos = pos + 1;
        }
    }
    proof {
        lemma_split_end(s@, sep@, start as int);
    }
    let piece = slice_chars(s, start, s.len());
    parts.push(piece);
    proof {
        assert(piece@ =~= s@.skip(start as int));
        assert(split_on(s@, sep@) =~= done.push(s@.skip(start as int)));
    }
    parts
}

// ---------------------------------------------------------------------------
// UTF-8 lengths and decimal rendering
// ---------------------------------------------------------------------------

/// Number of bytes in the UTF-8 encoding of `c`.
pub open spec fn utf8_width(c: char) -> nat {
    let v = c as u32;
    if v < 0x80 {
        1
    } else if v < 0x800 {
        2
    } else if v < 0x10000 {
        3
    } else {
        4
    }
}

/// Number of bytes in the UTF-8 encoding of `s` (what `str::len` returns).
pub open spec fn utf8_len(s: Seq<char>) -> nat
    decreases s.len(),
{
    if s.len() == 0 {
        0
    } else {
        utf8_len(s.drop_last()) + utf8_width(s.last())
    }
}

pub proof fn lemma_utf8_len_bound(s: Seq<char>)
    ensures
        s.len() <= utf8_len(s) <= 4 * s.len(),
    decreases s.len(),
{
    if s.len() > 0 {
        lemma_utf8_len_bound(s.drop_last());
    }
}

/// `c.len_utf8()`.
pub fn char_utf8_width(c: char) -> (n: usize)
    ensures
        n == utf8_width(c),
{
    let v = c as u32;
    if v < 0x80 {
        1
    } else if v < 0x800 {
        2
    } else if v < 0x10000 {
        3
    } else {
        4
    }
}

/// A prefix never has a longer encoding than the whole.
pub proof fn lemma_utf8_len_prefix_le(s: Seq<char>, n: int)
    requires
        0 <= n <= s.len(),
    ensures
        utf8_len(s.take(n)) <= utf8_len(s),
    decreases s.len() - n,
{
    if n < s.len() {
        lemma_utf8_len_prefix_le(s, n + 1);
        assert(s.take(n + 1).drop_last() =~= s.take(n));
    } else {
        assert(s.take(n) =~= s);
    }
}

/// Byte length of the UTF-8 encoding of `s[..n]`.
pub fn utf8_len_of_prefix(s: &[char], n: usize) -> (len: usize)
    requires
        n <= s@.len(),
        utf8_len(s@.take(n as int)) <= usize::MAX,
    ensures
        len == utf8_len(s@.take(n as int)),
{
    let mut len: usize = 0;
    let mut i: usize = 0;
    while i < n
        invariant
            0 <= i <= n <= s@.len(),
            utf8_len(s@.take(n as int)) <= usize::MAX,
            len == utf8_len(s@.take(i as int)),
        decreases n - i,
    {
        proof {
            assert(s@.take(i + 1).drop_last() =~= s@.take(i as int));
            assert(s@.take(n as int).take(i + 1) =~= s@.take(i + 1));
            lemma_utf8_len_prefix_le(s@.take(n as int), i + 1);
        }
        len = len + char_utf8_width(s[i]);
        i = i + 1;
    }
    len
}

/// The decimal digit for `d < 10`.
pub open spec fn digit_char(d: nat) -> char {
    if d == 0 {
        '0'
    } else if d == 1 {
        '1'
    } else if d == 2 {
        '2'
    } else if d == 3 {
        '3'
    } else if d == 4 {
        '4'
    } else if d == 5 {
        '5'
    } else if d == 6 {
        '6'
    } else if d == 7 {
        '7'
    } else if d == 8 {
        '8'
    } else {
        '9'
    }
}

/// The decimal rendering of `n` (as `format!("{}", n)` produces it).
pub open spec fn decimal(n: nat) -> Seq<char>
    decreases n,
{
    if n < 10 {
        seq![digit_char(n)]
    } else {
        decimal(n / 10).push(digit_char(n % 10))
    }
}

fn digit_to_char(d: u64) -> (c: char)
    requires
        d < 10,
    ensures
        c == digit_char(d as nat),
{
    if d == 0 {
        '0'
    } else if d == 1 {
        '1'
    } else if d == 2 {
        '2'
    } else if d == 3 {
        '3'
    } else if d == 4 {
        '4'
    } else if d == 5 {
        '5'
    } else if d == 6 {
        '6'
    } else if d == 7 {
        '7'
    } else if d == 8 {
        '8'
    } else {
        '9'
    }
}

/// Appends the decimal rendering of `n` to `out`.
pub fn push_decimal(out: &mut Vec<char>, n: u64)
    ensures
        final(out)@ == old(out)@ + decimal(n as nat),
    decreases n,
{
    if n < 10 {
        out.push(digit_to_char(n));
    } else {
        push_decimal(out, n / 10);
        out.push(digit_to_char(n % 10));
        assert(final(out)@ =~= old(out)@ + decimal(n as nat));
    }
}

/// Appends the characters of `s` to `out`.
pub fn push_all(out: &mut Vec<char>, s: &[char])
    ensures
        final(out)@ == old(out)@ + s@,
{
    let mut i: usize = 0;
    while i < s.len()
        invariant
            0 <= i <= s@.len(),
            out@ == old(out)@ + s@.take(i as int),
        decreases s.len() - i,
    {
        out.push(s[i]);
        i = i + 1;
        assert(out@ =~= old(out)@ + s@.take(i as int));
    }
    assert(s@.take(s@.len() as int) =~= s@);
}


/// A line as `str::lines` yields it when a `\n` followed it: without a
/// trailing `\r`.
pub open spec fn without_cr(line: Seq<char>) -> Seq<char> {
    if line.len() > 0 && line.last() == '\r' {
        line.drop_last()
    } else {
        line
    }
}

/// `str::lines`: the text split at `\n`, each line that a `\n` ended losing
/// one trailing `\r`; the text after the last `\n` is a line unless empty.
pub open spec fn lines_of(s: Seq<char>) -> Seq<Seq<char>> {
    let pieces = split_on(s, seq!['\n']);
    let n = pieces.len() as int;
    let ended = pieces.take(n - 1).map_values(|p: Seq<char>| without_cr(p));
    if pieces[n - 1].len() == 0 {
        ended
    } else {
        ended.push(pieces[n - 1])
    }
}

fn without_cr_chars(line: &[char]) -> (out: Vec<char>)
    ensures
        out@ == without_cr(line@),
{
    if line.len() > 0 && line[line.len() - 1] == '\r' {
        let out = slice_chars(line, 0, line.len() - 1);
        assert(out@ =~= line@.drop_last());
        out
    } else {
        let out = slice_chars(line, 0, line.len());
        assert(out@ =~= line@);
        out
    }
}

/// The lines of `s`, as `str::lines` yields them.
pub fn lines(s: &str) -> (out: Vec<Vec<char>>)
    ensures
        out@.len() == lines_of(s@).len(),
        forall|i: int| 0 <= i < out@.len() ==> #[trigger] out@[i]@ == lines_of(s@)[i],
{
    let chars = chars_of(s);
    let newline: Vec<char> = vec!['\n'];
    assert(newline@ =~= seq!['\n']);
    let pieces = split_chars(chars.as_slice(), newline.as_slice());
    let ghost spec_pieces = split_on(s@, seq!['\n']);
    let n = pieces.len();
    let mut out: Vec<Vec<char>> = Vec::new();
    let mut i: usize = 0;
    while i + 1 < n
        invariant
            n == pieces@.len(),
            n >= 1,
            n == spec_pieces.len(),
            spec_pieces == split_on(s@, seq!['\n']),
            forall|k: int| 0 <= k < n ==> #[trigger] pieces@[k]@ == spec_pieces[k],
            0 <= i <= n - 1,
            out@.len() == i,
            forall|k: int| 0 <= k < i ==> #[trigger] out@[k]@ == without_cr(spec_pieces[k]),
        decreases n - i,
    {
        let line = without_cr_chars(pieces[i].as_slice());
        out.push(line);
        i = i + 1;
    }
    let last_empty = pieces[n - 1].len() == 0;
    if !last_empty {
        let last = slice_chars(pieces[n - 1].as_slice(), 0, pieces[n - 1].len());
        assert(last@ =~= pieces@[n - 1]@);
        out.push(last);
    }
    proof {
        let ended = spec_pieces.take(n - 1).map_values(|p: Seq<char>| without_cr(p));
        assert(ended.len() == n - 1);
        assert forall|k: int| 0 <= k < out@.len() implies #[trigger] out@[k]@ == lines_of(s@)[k] by {
            if k < n - 1 {
                assert(ended[k] == without_cr(spec_pieces[k]));
            }
        }
    }
    out
}


/// The end of the run of non-whitespace characters starting at `i`.
pub open spec fn word_end(s: Seq<char>, i: int) -> int
    decreases s.len() - i,
{
    if 0 <= i < s.len() && !is_ws(s[i]) {
        word_end(s, i + 1)
    } else {
        i
    }
}

/// `str::split_whitespace` from index `i`: the maximal runs of
/// non-whitespace characters.
pub open spec fn words_from(s: Seq<char>, i: int) -> Seq<Seq<char>>
    decreases s.len() - i,
{
    if i < 0 || i >= s.len() {
        seq![]
    } else if is_ws(s[i]) {
        words_from(s, i + 1)
    } else {
        let e = word_end(s, i);
        if i < e <= s.len() {
            seq![s.subrange(i, e)] + words_from(s, e)
        } else {
            seq![]
        }
    }
}

pub proof fn lemma_word_end(s: Seq<char>, i: int)
    requires
        0 <= i < s.len(),
        !is_ws(s[i]),
    ensures
        i < word_end(s, i) <= s.len(),
        forall|j: int| i <= j < word_end(s, i) ==> !is_ws(#[trigger] s[j]),
        word_end(s, i) == s.len() || is_ws(s[word_end(s, i)]),
    decreases s.len() - i,
{
    assert(word_end(s, i) == word_end(s, i + 1));
    if i + 1 < s.len() && !is_ws(s[i + 1]) {
        lemma_word_end(s, i + 1);
    } else {
        assert(word_end(s, i + 1) == i + 1);
    }
}

/// `str::split_whitespace`.
pub fn split_whitespace_chars(s: &[char]) -> (words: Vec<Vec<char>>)
    ensures
        words@.len() == words_from(s@, 0).len(),
        forall|k: int| 0 <= k < words@.len() ==> #[trigger] words@[k]@ == words_from(s@, 0)[k],
{
    let mut words: Vec<Vec<char>> = Vec::new();
    let ghost mut done: Seq<Seq<char>> = seq![];
    let mut i: usize = 0;
    while i < s.len()
        invariant
            0 <= i <= s@.len(),
            words@.len() == done.len(),
            forall|k: int| 0 <= k < words@.len() ==> #[trigger] words@[k]@ == done[k],
            words_from(s@, 0) == done + words_from(s@, i as int),
        decreases s.len() - i,
    {
        if is_whitespace(s[i]) {
            i = i + 1;
        } else {
            proof {
                lemma_word_end(s@, i as int);
            }
            let mut e = i;
            while e < s.len() && !is_whitespace(s[e])
                invariant
                    i <= e <= s@.len(),
                    word_end(s@, i as int) == word_end(s@, e as int),
                decreases s.len() - e,
            {
                e = e + 1;
            }
            let w = slice_chars(s, i, e);
            proof {
                let old_done = done;
                done = done.push(s@.subrange(i as int, e as int));
                assert(old_done + (seq![s@.subrange(i as int, e as int)] + words_from(s@, e as int))
                    =~= done + words_from(s@, e as int));
            }
            words.push(w);
            i = e;
        }
    }
    assert(done + words_from(s@, i as int) =~= done);
    words
}


/// Index of the first `c` in `s`, if any.
pub open spec fn first_index(s: Seq<char>, c: char) -> Option<int> {
    if s.contains(c) {
        Some(choose|i: int| 0 <= i < s.len() && s[i] == c && forall|j: int| 0 <= j < i ==> s[j] != c)
    } else {
        None
    }
}

/// Index of the first `c` in `s` (executable).
pub fn first_index_of(s: &[char], c: char) -> (r: Option<usize>)
    ensures
        match r {
            Some(i) => first_index(s@, c) == Some(i as int) && i < s@.len() && s@[i as int] == c,
            None => first_index(s@, c) is None,
        },
{
    let r = find_char(s, c);
    proof {
        if let Some(i) = r {
            assert(s@.contains(c));
            let w = choose|w: int| 0 <= w < s@.len() && s@[w] == c && forall|j: int| 0 <= j < w ==> s@[j] != c;
            if w < i {
                assert(s@[w] != c);
            } else if w > i {
                assert(s@[i as int] != c);
            }
        }
    }
    r
}

/// Number of leading `' '` characters of `s`.
pub open spec fn space_run(s: Seq<char>) -> nat
    decreases s.len(),
{
    if s.len() > 0 && s[0] == ' ' {
        1 + space_run(s.drop_first())
    } else {
        0
    }
}

pub proof fn lemma_space_run_is(s: Seq<char>, k: int)
    requires
        0 <= k <= s.len(),
        forall|j: int| 0 <= j < k ==> #[trigger] s[j] == ' ',
        k == s.len() || s[k] != ' ',
    ensures
        space_run(s) == k,
    decreases k,
{
    if k > 0 {
        assert forall|j: int| 0 <= j < k - 1 implies #[trigger] s.drop_first()[j] == ' ' by {
            assert(s.drop_first()[j] == s[j + 1]);
        }
        if k - 1 < s.drop_first().len() {
            assert(s.drop_first()[k - 1] == s[k]);
        }
        lemma_space_run_is(s.drop_first(), k - 1);
    }
}

/// Appends the text of `a` and then of `b`.
pub fn concat_chars(a: &[char], b: &[char]) -> (out: Vec<char>)
    ensures
        out@ == a@ + b@,
{
    let mut out: Vec<char> = Vec::new();
    push_all(&mut out, a);
    push_all(&mut out, b);
    assert(out@ =~= a@ + b@);
    out
}

} // verus!
