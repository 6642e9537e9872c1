//! The story model read at run time: conditions and requirements on
//! variables, the localisation table, and the small types the runtimes
//! exchange.
use vstd::prelude::*;

use crate::database::Variable;
use crate::text::{chars_eq, chars_of, push_all, string_from_chars};

verus! {

/// Comparison operators of a condition.
#[derive(Debug, Clone, Copy, PartialEq, Eq, Structural)]
pub enum Operator {
    Equal,
    NotEqual,
    GreaterThan,
    LessThan,
    GreaterOrEqualThan,
    LessOrEqualThan,
}

/// A condition on a variable.
#[derive(Debug, Clone, PartialEq, Eq)]
pub struct Condition {
    pub variable: Variable,
    pub operator: Operator,
    pub value: String,
}

impl Condition {
    /// Whether the condition holds. Conditions are not evaluated yet: every
    /// condition holds.
    pub fn meets_condition(&self) -> (b: bool)
        ensures
            b,
    {
        true
    }
}

/// A requirement a piece of content places on the story state.
#[derive(Debug, Clone, PartialEq, Eq)]
pub struct Requirement {
    pub condition: Condition,
}

impl Requirement {
    /// Whether the requirement is met: whether its condition holds.
    pub fn meets_requirement(&self) -> (b: bool)
        ensures
            b,
    {
        self.condition.meets_condition()
    }
}

/// A change to a variable.
#[derive(Debug, Clone, PartialEq, Eq)]
pub struct Modifier {
    pub variable: Variable,
    pub new_value: String,
}

/// Where reading goes after a block.
#[derive(Debug, Clone, Copy, PartialEq, Eq, Structural)]
pub enum NextBlock {
    /// No next block has been set.
    Unset,
    BlockId(usize),
    EndOfFile,
    Section(usize),
}

/// The kind of a piece of content.
#[derive(Debug, Clone, Copy, PartialEq, Eq, Structural)]
pub enum ContentType {
    Text,
    NamedBucket,
    Choice,
}

/// What a reader shows: a text and the choices that follow it.
#[derive(Debug, PartialEq, Eq)]
pub struct OutputText {
    pub text: String,
    pub choices: Vec<String>,
}

/// A chance given as a whole percentage.
#[derive(Debug, Clone, Copy, PartialEq, Eq, Structural)]
pub struct PercentageProbability {
    pub value: u8,
}

/// The time of day a runtime is set to.
#[derive(Debug, Clone, Copy, PartialEq, Eq, Structural)]
pub enum TimeOfDay {
    Morning,
    Noon,
    Evening,
    Night,
}

/// Why a compilation could not start.
#[derive(Debug, Clone, Copy, PartialEq, Eq, Structural)]
pub enum CompileError {
    SourceNotDirectory,
    DestinationNotDirectory,
}

impl CompileError {
    /// The message a user sees.
    pub open spec fn message_spec(self) -> Seq<char> {
        match self {
            CompileError::SourceNotDirectory => "Source is not a folder."@,
            CompileError::DestinationNotDirectory => "Destination is not a folder."@,
        }
    }

    /// The message a user sees.
    pub fn message(&self) -> (s: String)
        ensures
            s@ == self.message_spec(),
    {
        match self {
            CompileError::SourceNotDirectory => {
                let c = chars_of("Source is not a folder.");
                string_from_chars(c.as_slice())
            },
            CompileError::DestinationNotDirectory => {
                let c = chars_of("Destination is not a folder.");
                string_from_chars(c.as_slice())
            },
        }
    }
}

/// Localised strings: the known locales, the default one, and for each
/// locale its strings by id.
#[derive(Debug, Clone, PartialEq, Eq)]
pub struct I18n {
    pub locales: Vec<String>,
    pub default_locale: String,
    pub strings: Vec<(String, Vec<(String, String)>)>,
}

/// Whether no key occurs twice among `entries`.
pub open spec fn unique_keys<V>(entries: Seq<(String, V)>) -> bool {
    forall|i: int, j: int| 0 <= i < j < entries.len() ==> (#[trigger] entries[i]).0@ != (#[trigger] entries[j]).0@
}

impl I18n {
    /// A well-formed table holds each locale once, and within a locale each
    /// string id once, so that the first entry for a key is its only entry.
    pub open spec fn wf(&self) -> bool {
        &&& unique_keys(self.strings@)
        &&& forall|i: int| 0 <= i < self.strings@.len() ==> unique_keys((#[trigger] self.strings@[i]).1@)
    }
}

/// Under [`unique_keys`], the entry [`first_key`] finds is the only one with
/// its key.
pub proof fn lemma_first_key_unique<V>(entries: Seq<(String, V)>, key: Seq<char>, k: int)
    requires
        unique_keys(entries),
        0 <= k < entries.len(),
        entries[k].0@ == key,
    ensures
        first_key(entries, key) == Some(k),
{
    assert forall|j: int| 0 <= j < k implies entries[j].0@ != key by {
        assert(entries[j].0@ != entries[k].0@);
    }
    lemma_first_key(entries, key, k);
}

/// The first entry whose key is `key`, if any.
pub open spec fn first_key<V>(entries: Seq<(String, V)>, key: Seq<char>) -> Option<int> {
    if exists|i: int| 0 <= i < entries.len() && #[trigger] entries[i].0@ == key {
        Some(
            choose|i: int|
                0 <= i < entries.len() && #[trigger] entries[i].0@ == key && forall|j: int|
                    0 <= j < i ==> entries[j].0@ != key,
        )
    } else {
        None
    }
}

proof fn lemma_first_key<V>(entries: Seq<(String, V)>, key: Seq<char>, k: int)
    requires
        0 <= k < entries.len(),
        entries[k].0@ == key,
        forall|j: int| 0 <= j < k ==> entries[j].0@ != key,
    ensures
        first_key(entries, key) == Some(k),
{
    let w = choose|w: int|
        0 <= w < entries.len() && #[trigger] entries[w].0@ == key && forall|j: int| 0 <= j < w ==> entries[j].0@ != key;
    assert(entries[k].0@ == key);
    if w < k {
        assert(entries[w].0@ != key);
    } else if w > k {
        assert(entries[k].0@ != key);
    }
}

/// The position of the entry keyed `key`.
fn find_key<V>(entries: &Vec<(String, V)>, key: &str) -> (r: Option<usize>)
    ensures
        match r {
            Some(i) => first_key(entries@, key@) == Some(i as int) && i < entries@.len(),
            None => first_key(entries@, key@) is None,
        },
{
    let k = chars_of(key);
    let mut i: usize = 0;
    while i < entries.len()
        invariant
            0 <= i <= entries@.len(),
            k@ == key@,
            forall|j: int| 0 <= j < i ==> entries@[j].0@ != key@,
        decreases entries.len() - i,
    {
        let e = chars_of(entries[i].0.as_str());
        if chars_eq(e.as_slice(), k.as_slice()) {
            proof {
                lemma_first_key(entries@, key@, i as int);
            }
            return Some(i);
        }
        i = i + 1;
    }
    None
}

/// The message for a string missing from a locale.
pub open spec fn missing_translation(text: Seq<char>, locale: Seq<char>) -> Seq<char> {
    "MISSING TRANSLATION `"@ + text + "` in locale `"@ + locale + "`"@
}

/// The message for a locale without strings.
pub open spec fn missing_locale(locale: Seq<char>) -> Seq<char> {
    "MISSING LOCALE `"@ + locale + "`"@
}

impl I18n {
    /// What `get_translation(locale, text)` gives.
    pub open spec fn translation(&self, locale: Seq<char>, text: Seq<char>) -> Seq<char> {
        match first_key(self.strings@, locale) {
            None => missing_locale(locale),
            Some(l) => match first_key(self.strings@[l].1@, text) {
                None => missing_translation(text, locale),
                Some(t) => self.strings@[l].1@[t].1@,
            },
        }
    }

    /// Whether `locale` is one of the known locales.
    pub fn has_locale(&self, locale: &String) -> (b: bool)
        ensures
            b == exists|i: int| 0 <= i < self.locales@.len() && #[trigger] self.locales@[i]@ == locale@,
    {
        let target = chars_of(locale.as_str());
        let mut i: usize = 0;
        while i < self.locales.len()
            invariant
                0 <= i <= self.locales@.len(),
                target@ == locale@,
                forall|j: int| 0 <= j < i ==> self.locales@[j]@ != locale@,
            decreases self.locales.len() - i,
        {
            let l = chars_of(self.locales[i].as_str());
            if chars_eq(l.as_slice(), target.as_slice()) {
                assert(self.locales@[i as int]@ == locale@);
                return true;
            }
            i = i + 1;
        }
        false
    }

    /// The string `text` in `locale`, or a message saying what is missing.
    pub fn get_translation(&self, locale: &str, text: &str) -> (s: String)
        ensures
            s@ == self.translation(locale@, text@),
    {
        match find_key(&self.strings, locale) {
            None => {
                let mut out: Vec<char> = Vec::new();
                let a = chars_of("MISSING LOCALE `");
                let l = chars_of(locale);
                let b = chars_of("`");
                push_all(&mut out, a.as_slice());
                push_all(&mut out, l.as_slice());
                push_all(&mut out, b.as_slice());
                string_from_chars(out.as_slice())
            },
            Some(li) => {
                let table = &self.strings[li].1;
                match find_key(table, text) {
                    Some(ti) => table[ti].1.clone(),
                    None => {
                        let mut out: Vec<char> = Vec::new();
                        let a = chars_of("MISSING TRANSLATION `");
                        let t = chars_of(text);
                        let b = chars_of("` in locale `");
                        let l = chars_of(locale);
                        let c = chars_of("`");
                        push_all(&mut out, a.as_slice());
                        push_all(&mut out, t.as_slice());
                        push_all(&mut out, b.as_slice());
                        push_all(&mut out, l.as_slice());
                        push_all(&mut out, c.as_slice());
                        string_from_chars(out.as_slice())
                    },
                }
            },
        }
    }
}

} // verus!
