//! The script reader: turns a whole script into a [`Database`] of blocks.
//!
//! Each non-empty, non-comment line becomes one block. Its indentation (two
//! spaces a level) and the blocks before it decide its parent; the line
//! itself is a section header, a jump, a `set` or `require` statement, an
//! option or plain text. An optional `--- variables` block at the top
//! declares integer variables. After all lines are read, jumps are resolved
//! against the sections, and the script is checked for empty sections,
//! misnamed sections and unreachable lines. Errors are collected; a script
//! with any error is refused with all of them.
use vstd::prelude::*;

use crate::database::{
    first_variable_named, lemma_add_block_wf, lemma_first_variable_below, Block, BlockId,
    BlockType, Database, Section, SectionId, StringId, Variable,
};
use crate::error::{ParseError, Warning};
use crate::expression::{i64_text_value, parse_i64};
use crate::model::{ComparisonOperator, Value, VariableId};
use crate::parsers::go_to_section_parser::{path_spacing_ok, GoToSectionParser};
use crate::parsers::line_parser::LineParser;
use crate::parsers::option_parser::{is_option_text, OptionParser};
use crate::parsers::section_parser::{hash_prefix_len, header_title, raw_title, title_parts, SectionParseResult, SectionParser};
use crate::parsers::{FeatureParser, ParserContext};
use crate::text::{
    chars_eq, chars_of, concat_chars, decimal, first_index, first_index_of, has_prefix,
    is_whitespace, is_ws, lemma_space_run_is, lemma_word_end, lines, lines_of, push_all,
    push_decimal, slice_chars, space_run, split_on, split_whitespace_chars, starts_with, string_from_chars,
    trim, trim_chars, trim_start, trim_start_chars, word_end, words_from,
};

verus! {

/// Reads scripts into databases, collecting errors and warnings.
#[derive(Debug)]
pub struct Parser {
    /// The last block seen at each indentation level.
    last_block_at_level: Vec<BlockId>,
    /// The last section seen at each level (the start block stands for the
    /// root).
    last_section_at_level: Vec<BlockId>,
    /// Blocks that already have a child other than an option.
    seen_non_option_by_parent: Vec<BlockId>,
    file_path: Option<String>,
    /// Section display names by parent, with the line of their first use.
    section_names_by_parent: Vec<(Option<BlockId>, String, usize)>,
    /// Section identifiers by parent, with the line of their first use.
    section_ids_by_parent: Vec<(Option<BlockId>, String, usize)>,
    /// The written target of each jump block, until it is resolved.
    goto_paths: Vec<(BlockId, String)>,
    errors: Vec<ParseError>,
    warnings: Vec<Warning>,
}

/// A `set` statement of the simple form `set <variable> = <integer>`.
struct SetStatement {
    variable_id: VariableId,
    value: Value,
}

/// A `require` statement of the form `require <variable> <op> <integer>`.
struct RequireStatement {
    variable_id: VariableId,
    operator: ComparisonOperator,
    value: Value,
}

// ---------------------------------------------------------------------------
// Line classification
// ---------------------------------------------------------------------------

/// A comment line: `//` after optional leading whitespace.
pub open spec fn is_comment_line(line: Seq<char>) -> bool {
    has_prefix(trim_start(line), "//"@)
}

/// How a line is indented.
pub enum Indentation {
    /// A tab occurs among the leading spaces.
    Tab,
    /// An odd number of leading spaces.
    Odd(nat),
    /// `2 * level` leading spaces.
    Level(nat),
}

/// The indentation of `line`: its leading spaces, which must come in pairs
/// and may not be followed by a tab.
pub open spec fn indentation(line: Seq<char>) -> Indentation {
    let n = space_run(line);
    if n < line.len() && line[n as int] == '\t' {
        Indentation::Tab
    } else if n % 2 == 1 {
        Indentation::Odd(n)
    } else {
        Indentation::Level(n / 2)
    }
}

/// The message for a line indented with a tab.
pub open spec fn tab_message() -> Seq<char> {
    "found tab indentation."@
}

/// The message for an odd number of leading spaces.
pub open spec fn odd_spaces_message(n: nat) -> Seq<char> {
    "found "@ + decimal(n) + " spaces."@
}

/// The message for a line nested deeper than the lines before it allow.
pub open spec fn too_deep_message(level: nat, content: Seq<char>) -> Seq<char> {
    "found "@ + decimal(2 * level) + " spaces in: "@ + content
}

/// The type word of a variable definition and the rest of the line
/// (`splitn(2, char::is_whitespace)`, the rest trimmed).
pub open spec fn definition_parts(line: Seq<char>) -> (Seq<char>, Seq<char>) {
    let w = word_end(line, 0);
    (line.take(w), if w < line.len() { trim(line.skip(w + 1)) } else { seq![] })
}

/// The name and the optional default text of a definition's rest: split at
/// the first `=`, both sides trimmed.
pub open spec fn name_and_default(rest: Seq<char>) -> (Seq<char>, Option<Seq<char>>) {
    match first_index(rest, '=') {
        Some(i) => (trim(rest.take(i)), Some(trim(rest.skip(i + 1)))),
        None => (trim(rest), None),
    }
}

/// Whether `name` is among the names already declared.
pub open spec fn declared(seen: Seq<(String, usize)>, name: Seq<char>) -> bool {
    exists|k: int| 0 <= k < seen.len() && (#[trigger] seen[k]).0@ == name
}

/// The comparison operator a `require` statement writes.
pub open spec fn require_operator(op: Seq<char>) -> Option<ComparisonOperator> {
    if op == "="@ || op == "=="@ {
        Some(ComparisonOperator::Equal)
    } else if op == "!="@ {
        Some(ComparisonOperator::NotEqual)
    } else if op == "<"@ {
        Some(ComparisonOperator::Less)
    } else if op == "<="@ {
        Some(ComparisonOperator::LessOrEqual)
    } else if op == ">"@ {
        Some(ComparisonOperator::Greater)
    } else if op == ">="@ {
        Some(ComparisonOperator::GreaterOrEqual)
    } else {
        None
    }
}

/// Whether a statement line starts with `keyword`: it is the keyword alone
/// or the keyword and a space.
pub open spec fn is_statement(line: Seq<char>, keyword: Seq<char>) -> bool {
    line == keyword || has_prefix(line, keyword + " "@)
}

/// Whether a target is recorded for block `i`.
pub open spec fn has_path(paths: Seq<(BlockId, String)>, i: int) -> bool {
    exists|k: int| 0 <= k < paths.len() && (#[trigger] paths[k]).0 == i
}

/// The target written for block `i`: that of its first record.
pub open spec fn path_for(paths: Seq<(BlockId, String)>, i: int) -> Seq<char> {
    let k = choose|k: int|
        0 <= k < paths.len() && (#[trigger] paths[k]).0 == i && forall|j: int| 0 <= j < k ==> paths[j].0 != i;
    paths[k].1@
}

proof fn lemma_path_for(paths: Seq<(BlockId, String)>, i: int, k: int)
    requires
        0 <= k < paths.len(),
        paths[k].0 == i,
        forall|j: int| 0 <= j < k ==> paths[j].0 != i,
    ensures
        path_for(paths, i) == paths[k].1@,
{
    let w = choose|w: int|
        0 <= w < paths.len() && (#[trigger] paths[w]).0 == i && forall|j: int| 0 <= j < w ==> paths[j].0 != i;
    assert(paths[k].0 == i);
    if w < k {
        assert(paths[w].0 != i);
    } else if w > k {
        assert(paths[k].0 != i);
    }
}

proof fn lemma_word_end_bound(s: Seq<char>, i: int)
    requires
        0 <= i <= s.len(),
    ensures
        i <= word_end(s, i) <= s.len(),
    decreases s.len() - i,
{
    if i < s.len() && !is_ws(s[i]) {
        lemma_word_end_bound(s, i + 1);
    }
}

/// The type word and the trimmed rest of a definition line.
fn split_definition(line: &[char]) -> (r: (Vec<char>, Vec<char>))
    ensures
        r.0@ == definition_parts(line@).0,
        r.1@ == definition_parts(line@).1,
{
    proof {
        lemma_word_end_bound(line@, 0);
    }
    let mut w: usize = 0;
    while w < line.len() && !is_whitespace(line[w])
        invariant
            0 <= w <= line@.len(),
            word_end(line@, 0) == word_end(line@, w as int),
        decreases line.len() - w,
    {
        w = w + 1;
    }
    let kind = slice_chars(line, 0, w);
    assert(kind@ =~= line@.take(w as int));
    let rest: Vec<char> = if w < line.len() {
        let after = slice_chars(line, w + 1, line.len());
        assert(after@ =~= line@.skip(w + 1));
        trim_chars(after.as_slice())
    } else {
        Vec::new()
    };
    (kind, rest)
}

/// The name and optional default of a definition's rest.
pub(crate) fn split_name_default(rest: &[char]) -> (r: (Vec<char>, Option<Vec<char>>))
    ensures
        r.0@ == name_and_default(rest@).0,
        match name_and_default(rest@).1 {
            Some(t) => r.1 matches Some(v) && v@ == t,
            None => r.1 is None,
        },
{
    match first_index_of(rest, '=') {
        Some(i) => {
            let n = rest.len();
            assert(i < n);
            let left = slice_chars(rest, 0, i);
            let right = slice_chars(rest, i + 1, n);
            assert(left@ =~= rest@.take(i as int));
            assert(right@ =~= rest@.skip(i + 1));
            (trim_chars(left.as_slice()), Some(trim_chars(right.as_slice())))
        },
        None => (trim_chars(rest), None),
    }
}

/// Whether `name` was already declared.
fn is_declared(seen: &Vec<(String, usize)>, name: &[char]) -> (b: bool)
    ensures
        b == declared(seen@, name@),
{
    let mut k: usize = 0;
    while k < seen.len()
        invariant
            0 <= k <= seen@.len(),
            forall|j: int| 0 <= j < k ==> (#[trigger] seen@[j]).0@ != name@,
        decreases seen.len() - k,
    {
        let known = chars_of(seen[k].0.as_str());
        if chars_eq(known.as_slice(), name) {
            return true;
        }
        k = k + 1;
    }
    false
}

impl Parser {
    /// The state the reader keeps while it reads lines into `db`: the
    /// database stays consistent (jumps may await their targets), the start
    /// block comes first, the level stacks point at existing blocks, and
    /// every jump block has its written target recorded.
    spec fn inv(&self, db: Database) -> bool {
        &&& db.wf_with(true)
        &&& db.blocks@.len() >= 1
        &&& db.blocks@[0].block_type == BlockType::Start
        &&& db.blocks@[0].parent_id is None
        &&& self.last_block_at_level@.len() >= 1
        &&& self.last_section_at_level@.len() >= 1
        &&& forall|k: int| 0 <= k < self.last_block_at_level@.len() ==> #[trigger] self.last_block_at_level@[k] < db.blocks@.len()
        &&& forall|k: int| 0 <= k < self.last_section_at_level@.len() ==> #[trigger] self.last_section_at_level@[k] < db.blocks@.len()
        &&& forall|k: int| 0 <= k < self.goto_paths@.len() ==> (#[trigger] self.goto_paths@[k]).0 < db.blocks@.len()
        &&& forall|i: int| 0 <= i < db.blocks@.len() && (#[trigger] db.blocks@[i]).block_type is GoTo
            ==> has_path(self.goto_paths@, i)
        &&& forall|i: int| 0 <= i < db.blocks@.len() ==> !((#[trigger] db.blocks@[i]).block_type is GoToAndBack)
        &&& flat_errors(self.errors@)
        &&& keys_distinct(self.section_names_by_parent@)
        &&& keys_distinct(self.section_ids_by_parent@)
    }

    /// The open blocks and sections.
    spec fn stacks(&self) -> Stacks {
        Stacks { blocks: self.last_block_at_level@, sections: self.last_section_at_level@ }
    }

    /// The file the scripts come from, if any.
    pub closed spec fn file(&self) -> Option<String> {
        self.file_path
    }

    /// Whether the reader holds nothing from an earlier script: no levels,
    /// section names or jumps recorded, and no errors or warnings.
    pub closed spec fn fresh(&self) -> bool {
        &&& self.last_block_at_level@.len() == 0
        &&& self.last_section_at_level@.len() == 0
        &&& self.seen_non_option_by_parent@.len() == 0
        &&& self.section_names_by_parent@.len() == 0
        &&& self.section_ids_by_parent@.len() == 0
        &&& self.goto_paths@.len() == 0
        &&& self.errors@.len() == 0
        &&& self.warnings@.len() == 0
    }

    /// A reader for scripts that do not come from a file.
    pub fn new() -> (p: Self)
        ensures
            p.file() is None,
            p.fresh(),
    {
        Parser {
            last_block_at_level: Vec::new(),
            last_section_at_level: Vec::new(),
            seen_non_option_by_parent: Vec::new(),
            file_path: None,
            section_names_by_parent: Vec::new(),
            section_ids_by_parent: Vec::new(),
            goto_paths: Vec::new(),
            errors: Vec::new(),
            warnings: Vec::new(),
        }
    }

    /// A reader for the script in `file_path`: errors and warnings name it.
    pub fn with_file(file_path: String) -> (p: Self)
        ensures
            p.file() == Some(file_path),
    {
        Parser {
            last_block_at_level: Vec::new(),
            last_section_at_level: Vec::new(),
            seen_non_option_by_parent: Vec::new(),
            file_path: Some(file_path),
            section_names_by_parent: Vec::new(),
            section_ids_by_parent: Vec::new(),
            goto_paths: Vec::new(),
            errors: Vec::new(),
            warnings: Vec::new(),
        }
    }

    /// The file the script comes from, if any.
    pub fn file_path(&self) -> (r: &Option<String>)
        ensures
            *r == self.file(),
    {
        &self.file_path
    }

    /// Whether `line` is a comment: `//` after optional leading whitespace.
    /// Comments may stand at any indentation; text with `//` later in the
    /// line is not a comment.
    pub fn is_comment(line: &str) -> (b: bool)
        ensures
            b == is_comment_line(line@),
    {
        let chars = chars_of(line);
        let t = trim_start_chars(chars.as_slice());
        let slashes = chars_of("//");
        starts_with(t.as_slice(), slashes.as_slice())
    }

    /// The indentation level of `line` and the text after its indentation.
    fn parse_indentation(&self, line: &[char], current_line: usize) -> (r: Result<(usize, Vec<char>), ParseError>)
        ensures
            match indentation(line@) {
                Indentation::Tab => r matches Err(ParseError::InvalidIndentation { message, file, line: l })
                    && message@ == tab_message() && file == self.file_path && l == current_line,
                Indentation::Odd(n) => r matches Err(ParseError::InvalidIndentation { message, file, line: l })
                    && message@ == odd_spaces_message(n) && file == self.file_path && l == current_line,
                Indentation::Level(level) => r matches Ok((lv, content)) && lv == level
                    && content@ == line@.skip(2 * level as int),
            },
            r matches Ok((lv, _)) ==> 2 * lv <= line@.len(),
    {
        let mut spaces: usize = 0;
        while spaces < line.len() && line[spaces] == ' '
            invariant
                0 <= spaces <= line@.len(),
                forall|j: int| 0 <= j < spaces ==> #[trigger] line@[j] == ' ',
            decreases line.len() - spaces,
        {
            spaces = spaces + 1;
        }
        proof {
            lemma_space_run_is(line@, spaces as int);
        }
        if spaces < line.len() && line[spaces] == '\t' {
            let message = chars_of("found tab indentation.");
            return Err(ParseError::InvalidIndentation {
                message: string_from_chars(message.as_slice()),
                file: self.file_path.clone(),
                line: current_line,
            });
        }
        if spaces % 2 != 0 {
            let mut message = chars_of("found ");
            push_decimal(&mut message, spaces as u64);
            let tail = chars_of(" spaces.");
            push_all(&mut message, tail.as_slice());
            return Err(ParseError::InvalidIndentation {
                message: string_from_chars(message.as_slice()),
                file: self.file_path.clone(),
                line: current_line,
            });
        }
        let content = slice_chars(line, spaces, line.len());
        assert(content@ =~= line@.skip(2 * (spaces / 2) as int));
        Ok((spaces / 2, content))
    }

    /// Declares the integer variable a line of the variables block defines:
    /// `int <name>` (default 0) or `int <name> = <integer>`.
    fn parse_variable_definition(
        &self,
        line: &[char],
        line_number: usize,
        database: &mut Database,
        seen_variable_names: &mut Vec<(String, usize)>,
    ) -> (r: Result<(), ParseError>)
        requires
            old(database).wf_with(true),
        ensures
            final(database).wf_with(true),
            final(database).blocks == old(database).blocks,
            final(database).sections == old(database).sections,
            keeps_blocks(*old(database), *final(database)),
            r is Ok ==> final(database).variables@.drop_last() == old(database).variables@,
            ({
                let (kind, rest) = definition_parts(line@);
                let (name, default) = name_and_default(rest);
                if kind != "int"@ {
                    &&& r matches Err(ParseError::InvalidVariableType { name: n, line: l }) && n@ == kind && l == line_number
                    &&& *final(database) == *old(database)
                    &&& final(seen_variable_names)@ == old(seen_variable_names)@
                } else if rest.len() == 0 || name.len() == 0 {
                    &&& r matches Err(ParseError::MissingVariableName { line: l }) && l == line_number
                    &&& *final(database) == *old(database)
                    &&& final(seen_variable_names)@ == old(seen_variable_names)@
                } else if declared(old(seen_variable_names)@, name) {
                    &&& r matches Err(ParseError::DuplicateVariableName { name: n, line: l }) && n@ == name && l == line_number
                    &&& *final(database) == *old(database)
                    &&& final(seen_variable_names)@ == old(seen_variable_names)@
                } else {
                    &&& final(seen_variable_names)@.len() == old(seen_variable_names)@.len() + 1
                    &&& final(seen_variable_names)@.drop_last() == old(seen_variable_names)@
                    &&& final(seen_variable_names)@.last().0@ == name
                    &&& final(seen_variable_names)@.last().1 == line_number
                    &&& match default {
                        Some(text) => match i64_text_value(text) {
                            None => r matches Err(ParseError::InvalidIntegerValue { name: n, value: v, line: l })
                                && n@ == name && v@ == text && l == line_number
                                && *final(database) == *old(database),
                            Some(v) => r is Ok && final(database).variables@.len() == old(database).variables@.len() + 1
                                && final(database).variables@.last().name@ == name
                                && final(database).variables@.last().default == Value::Integer(v)
                                && final(database).strings@.len() == old(database).strings@.len() + 1
                                && final(database).strings@.last()@ == name,
                        },
                        None => r is Ok && final(database).variables@.len() == old(database).variables@.len() + 1
                            && final(database).variables@.last().name@ == name
                            && final(database).variables@.last().default == Value::Integer(0)
                            && final(database).strings@.len() == old(database).strings@.len() + 1
                            && final(database).strings@.last()@ == name,
                    }
                }
            }),
    {
        let (kind, rest) = split_definition(line);
        let int_word = chars_of("int");
        if !chars_eq(kind.as_slice(), int_word.as_slice()) {
            return Err(ParseError::InvalidVariableType { name: string_from_chars(kind.as_slice()), line: line_number });
        }
        if rest.len() == 0 {
            return Err(ParseError::MissingVariableName { line: line_number });
        }
        let (name, default) = split_name_default(rest.as_slice());
        if name.len() == 0 {
            return Err(ParseError::MissingVariableName { line: line_number });
        }
        if is_declared(seen_variable_names, name.as_slice()) {
            return Err(ParseError::DuplicateVariableName { name: string_from_chars(name.as_slice()), line: line_number });
        }
        seen_variable_names.push((string_from_chars(name.as_slice()), line_number));
        assert(seen_variable_names@.drop_last() =~= old(seen_variable_names)@);
        let value: i64 = match default {
            Some(text) => match parse_i64(text.as_slice()) {
                Some(v) => v,
                None => {
                    return Err(ParseError::InvalidIntegerValue {
                        name: string_from_chars(name.as_slice()),
                        value: string_from_chars(text.as_slice()),
                        line: line_number,
                    });
                },
            },
            None => 0,
        };
        let ghost before = *database;
        database.add_string(string_from_chars(name.as_slice()));
        database.add_variable(Variable::new(string_from_chars(name.as_slice()), Value::Integer(value)));
        proof {
            assert forall|i: int| 0 <= i < database.blocks@.len() implies database.type_refs_ok(#[trigger] database.blocks@[i].block_type, true) by {
                assert(before.type_refs_ok(before.blocks@[i].block_type, true));
            }
        }
        Ok(())
    }
}


/// What a simple `set` line says: the variable named and the integer text,
/// or the failure.
pub enum SetLine {
    NotSet,
    Syntax,
    MissingName,
    Unknown(Seq<char>),
    BadValue(Seq<char>, Seq<char>),
    Assign(VariableId, i64),
}

/// How a simple `set` line reads against the declared variables.
pub open spec fn set_line(line: Seq<char>, vars: Seq<Variable>) -> SetLine {
    if !is_statement(line, "set"@) {
        SetLine::NotSet
    } else {
        let rest = trim(line.skip(3));
        if rest.len() == 0 {
            SetLine::Syntax
        } else {
            match first_index(rest, '=') {
                None => SetLine::Syntax,
                Some(i) => {
                    let name = trim(rest.take(i));
                    let value = trim(rest.skip(i + 1));
                    if name.len() == 0 {
                        SetLine::MissingName
                    } else {
                        match first_variable_named(vars, name) {
                            None => SetLine::Unknown(name),
                            Some(id) => match i64_text_value(value) {
                                None => SetLine::BadValue(name, value),
                                Some(v) => SetLine::Assign(id, v),
                            },
                        }
                    }
                },
            }
        }
    }
}

/// What a simple `require` line says, or the failure.
pub enum RequireLine {
    NotRequire,
    Syntax,
    Unknown(Seq<char>),
    BadOperator(Seq<char>),
    BadValue(Seq<char>, Seq<char>),
    Require(VariableId, ComparisonOperator, i64),
}

/// How a simple `require` line reads: exactly three words, a declared
/// variable, an operator and an integer.
pub open spec fn require_line(line: Seq<char>, vars: Seq<Variable>) -> RequireLine {
    if !is_statement(line, "require"@) {
        RequireLine::NotRequire
    } else {
        let rest = trim(line.skip(7));
        let parts = words_from(rest, 0);
        if rest.len() == 0 || parts.len() != 3 {
            RequireLine::Syntax
        } else {
            match first_variable_named(vars, parts[0]) {
                None => RequireLine::Unknown(parts[0]),
                Some(id) => match require_operator(parts[1]) {
                    None => RequireLine::BadOperator(parts[1]),
                    Some(op) => match i64_text_value(parts[2]) {
                        None => RequireLine::BadValue(parts[0], parts[2]),
                        Some(v) => RequireLine::Require(id, op, v),
                    },
                },
            }
        }
    }
}

/// Whether `line` is `keyword` alone or `keyword` and a space.
fn statement_keyword(line: &[char], keyword: &str) -> (b: bool)
    ensures
        b == is_statement(line@, keyword@),
{
    let k = chars_of(keyword);
    let space = chars_of(" ");
    let with_space = concat_chars(k.as_slice(), space.as_slice());
    chars_eq(line, k.as_slice()) || starts_with(line, with_space.as_slice())
}

fn operator_of(op: &[char]) -> (r: Option<ComparisonOperator>)
    ensures
        r == require_operator(op@),
{
    let eq = chars_of("=");
    let eqeq = chars_of("==");
    let ne = chars_of("!=");
    let lt = chars_of("<");
    let le = chars_of("<=");
    let gt = chars_of(">");
    let ge = chars_of(">=");
    if chars_eq(op, eq.as_slice()) || chars_eq(op, eqeq.as_slice()) {
        Some(ComparisonOperator::Equal)
    } else if chars_eq(op, ne.as_slice()) {
        Some(ComparisonOperator::NotEqual)
    } else if chars_eq(op, lt.as_slice()) {
        Some(ComparisonOperator::Less)
    } else if chars_eq(op, le.as_slice()) {
        Some(ComparisonOperator::LessOrEqual)
    } else if chars_eq(op, gt.as_slice()) {
        Some(ComparisonOperator::Greater)
    } else if chars_eq(op, ge.as_slice()) {
        Some(ComparisonOperator::GreaterOrEqual)
    } else {
        None
    }
}

impl Parser {
    /// Reads a `set <variable> = <integer>` line.
    fn parse_set_statement(&self, line: &[char], line_number: usize, database: &Database) -> (r: Result<Option<SetStatement>, ParseError>)
        ensures
            match set_line(line@, database.variables@) {
                SetLine::NotSet => r matches Ok(None),
                SetLine::Syntax => r matches Err(ParseError::InvalidSetSyntax { line: l }) && l == line_number,
                SetLine::MissingName => r matches Err(ParseError::MissingVariableName { line: l }) && l == line_number,
                SetLine::Unknown(name) => r matches Err(ParseError::UnknownVariableName { name: n, line: l })
                    && n@ == name && l == line_number,
                SetLine::BadValue(name, value) => r matches Err(ParseError::InvalidIntegerValue { name: n, value: v, line: l })
                    && n@ == name && v@ == value && l == line_number,
                SetLine::Assign(id, v) => r matches Ok(Some(st)) && st.variable_id == id && st.value == Value::Integer(v)
                    && id < database.variables@.len(),
            },
    {
        if !statement_keyword(line, "set") {
            return Ok(None);
        }
        proof {
            reveal_strlit("set");
            reveal_strlit(" ");
        }
        let after = slice_chars(line, 3, line.len());
        assert(after@ =~= line@.skip(3));
        let rest = trim_chars(after.as_slice());
        if rest.len() == 0 {
            return Err(ParseError::InvalidSetSyntax { line: line_number });
        }
        let i = match first_index_of(rest.as_slice(), '=') {
            Some(i) => i,
            None => return Err(ParseError::InvalidSetSyntax { line: line_number }),
        };
        let n = rest.len();
        let left = slice_chars(rest.as_slice(), 0, i);
        let right = slice_chars(rest.as_slice(), i + 1, n);
        assert(left@ =~= rest@.take(i as int));
        assert(right@ =~= rest@.skip(i + 1));
        let name = trim_chars(left.as_slice());
        let value = trim_chars(right.as_slice());
        if name.len() == 0 {
            return Err(ParseError::MissingVariableName { line: line_number });
        }
        let name_text = string_from_chars(name.as_slice());
        let variable_id = match database.variable_id(name_text.as_str()) {
            Some(id) => id,
            None => return Err(ParseError::UnknownVariableName { name: name_text, line: line_number }),
        };
        let _count = database.variables.len();
        proof {
            lemma_first_variable_below(database.variables@, name@);
        }
        match parse_i64(value.as_slice()) {
            Some(v) => Ok(Some(SetStatement { variable_id, value: Value::Integer(v) })),
            None => Err(ParseError::InvalidIntegerValue {
                name: name_text,
                value: string_from_chars(value.as_slice()),
                line: line_number,
            }),
        }
    }

    /// Reads a `require <variable> <operator> <integer>` line.
    fn parse_require_statement(&self, line: &[char], line_number: usize, database: &Database) -> (r: Result<Option<RequireStatement>, ParseError>)
        ensures
            match require_line(line@, database.variables@) {
                RequireLine::NotRequire => r matches Ok(None),
                RequireLine::Syntax => r matches Err(ParseError::InvalidRequireSyntax { line: l }) && l == line_number,
                RequireLine::Unknown(name) => r matches Err(ParseError::UnknownVariableName { name: n, line: l })
                    && n@ == name && l == line_number,
                RequireLine::BadOperator(op) => r matches Err(ParseError::InvalidRequireOperator { operator: o, line: l })
                    && o@ == op && l == line_number,
                RequireLine::BadValue(name, value) => r matches Err(ParseError::InvalidIntegerValue { name: n, value: v, line: l })
                    && n@ == name && v@ == value && l == line_number,
                RequireLine::Require(id, op, v) => r matches Ok(Some(st)) && st.variable_id == id && st.operator == op
                    && st.value == Value::Integer(v) && id < database.variables@.len(),
            },
    {
        if !statement_keyword(line, "require") {
            return Ok(None);
        }
        proof {
            reveal_strlit("require");
            reveal_strlit(" ");
        }
        let after = slice_chars(line, 7, line.len());
        assert(after@ =~= line@.skip(7));
        let rest = trim_chars(after.as_slice());
        if rest.len() == 0 {
            return Err(ParseError::InvalidRequireSyntax { line: line_number });
        }
        let parts = split_whitespace_chars(rest.as_slice());
        if parts.len() != 3 {
            return Err(ParseError::InvalidRequireSyntax { line: line_number });
        }
        let name_text = string_from_chars(parts[0].as_slice());
        let variable_id = match database.variable_id(name_text.as_str()) {
            Some(id) => id,
            None => return Err(ParseError::UnknownVariableName { name: name_text, line: line_number }),
        };
        let _count = database.variables.len();
        proof {
            lemma_first_variable_below(database.variables@, parts@[0]@);
        }
        let operator = match operator_of(parts[1].as_slice()) {
            Some(op) => op,
            None => return Err(ParseError::InvalidRequireOperator {
                operator: string_from_chars(parts[1].as_slice()),
                line: line_number,
            }),
        };
        match parse_i64(parts[2].as_slice()) {
            Some(v) => Ok(Some(RequireStatement { variable_id, operator, value: Value::Integer(v) })),
            None => Err(ParseError::InvalidIntegerValue {
                name: name_text,
                value: string_from_chars(parts[2].as_slice()),
                line: line_number,
            }),
        }
    }
}


/// The texts of a sequence of character vectors.
pub open spec fn char_views(v: Seq<Vec<char>>) -> Seq<Seq<char>> {
    v.map_values(|x: Vec<char>| x@)
}

/// The parts of a path joined by ` \ `.
pub open spec fn joined(parts: Seq<Seq<char>>) -> Seq<char>
    decreases parts.len(),
{
    if parts.len() == 0 {
        seq![]
    } else if parts.len() == 1 {
        parts[0]
    } else {
        joined(parts.drop_last()) + " \\ "@ + parts.last()
    }
}

fn join_path(parts: &Vec<Vec<char>>) -> (out: Vec<char>)
    ensures
        out@ == joined(char_views(parts@)),
{
    let ghost views = char_views(parts@);
    let mut out: Vec<char> = Vec::new();
    let sep = chars_of(" \\ ");
    let mut i: usize = 0;
    while i < parts.len()
        invariant
            0 <= i <= parts@.len(),
            views == char_views(parts@),
            sep@ == " \\ "@,
            out@ == joined(views.take(i as int)),
        decreases parts.len() - i,
    {
        assert(views.take(i + 1).drop_last() =~= views.take(i as int));
        if i > 0 {
            push_all(&mut out, sep.as_slice());
        }
        push_all(&mut out, parts[i].as_slice());
        proof {
            assert(views.take(i + 1).last() == parts@[i as int]@);
            if i == 0 {
                assert(out@ =~= parts@[0]@);
            }
        }
        i = i + 1;
    }
    assert(views.take(parts@.len() as int) =~= views);
    out
}

/// The names (or identifiers, with `ids`) of the sections on the level
/// stack below `level`, outermost first.
pub open spec fn stack_section_names(db: Database, stack: Seq<BlockId>, level: int, ids: bool) -> Seq<Seq<char>>
    decreases level,
{
    if level <= 0 {
        seq![]
    } else {
        let before = stack_section_names(db, stack, level - 1, ids);
        let i = level - 1;
        if i < stack.len() {
            match db.blocks@[stack[i] as int].block_type {
                BlockType::Section(sid) => {
                    let sec = db.sections@[sid as int];
                    before.push(db.strings@[(if ids { sec.id } else { sec.name }) as int]@)
                },
                _ => before,
            }
        } else {
            before
        }
    }
}

impl Parser {
    /// The path of a new section named `name` at `level`: the names (or,
    /// with `ids`, the identifiers) of the sections open below it, then
    /// `name`, joined by ` \ `.
    fn build_section_path_during_parse(&self, database: &Database, name: &[char], level: usize, ids: bool) -> (out: Vec<char>)
        requires
            self.inv(*database),
        ensures
            out@ == joined(stack_section_names(*database, self.last_section_at_level@, level as int, ids).push(name@)),
    {
        let mut parts: Vec<Vec<char>> = Vec::new();
        let mut i: usize = 0;
        while i < level
            invariant
                self.inv(*database),
                0 <= i <= level,
                char_views(parts@) == stack_section_names(*database, self.last_section_at_level@, i as int, ids),
            decreases level - i,
        {
            if i < self.last_section_at_level.len() {
                let block_id = self.last_section_at_level[i];
                match database.blocks[block_id].block_type {
                    BlockType::Section(sid) => {
                        let sec = &database.sections[sid];
                        let string_id = if ids { sec.id } else { sec.name };
                        let text = chars_of(database.strings[string_id].as_str());
                        let ghost before = parts@;
                        parts.push(text);
                        assert(char_views(parts@) =~= char_views(before).push(text@));
                    },
                    _ => {},
                }
            }
            i = i + 1;
        }
        let ghost before = parts@;
        let own = slice_chars(name, 0, name.len());
        assert(own@ =~= name@);
        parts.push(own);
        assert(char_views(parts@) =~= char_views(before).push(name@));
        join_path(&parts)
    }

    /// The parent of a text, `set` or `require` line at `level`: the
    /// section last opened at that level, else (at the root) the first block
    /// of the level stack, else the last block one level up, forgetting
    /// deeper levels; `None` when the line is deeper than that.
    fn statement_parent(&mut self, level: usize, Ghost(db): Ghost<Database>) -> (r: Option<Option<BlockId>>)
        requires
            old(self).inv(db),
        ensures
            final(self).inv(db),
            r matches Some(Some(p)) ==> p < db.blocks@.len(),
            final(self).goto_paths == old(self).goto_paths,
            final(self).errors == old(self).errors,
            final(self).warnings == old(self).warnings,
            final(self).last_section_at_level == old(self).last_section_at_level,
            final(self).file_path == old(self).file_path,
            final(self).section_names_by_parent == old(self).section_names_by_parent,
            final(self).section_ids_by_parent == old(self).section_ids_by_parent,
            final(self).seen_non_option_by_parent == old(self).seen_non_option_by_parent,
            if level < old(self).last_section_at_level@.len() {
                r == Some(Some(old(self).last_section_at_level@[level as int]))
                    && final(self).last_block_at_level == old(self).last_block_at_level
            } else if level == 0 {
                r == Some(Some(old(self).last_block_at_level@[0]))
                    && final(self).last_block_at_level == old(self).last_block_at_level
            } else if level <= old(self).last_block_at_level@.len() {
                r == Some(Some(old(self).last_block_at_level@[level - 1]))
                    && final(self).last_block_at_level@ == old(self).last_block_at_level@.take(level as int)
            } else {
                r is None && final(self).last_block_at_level == old(self).last_block_at_level
            },
    {
        if level < self.last_section_at_level.len() {
            Some(Some(self.last_section_at_level[level]))
        } else if level == 0 {
            Some(Some(self.last_block_at_level[0]))
        } else if level <= self.last_block_at_level.len() {
            self.last_block_at_level.truncate(level);
            assert(self.last_block_at_level@ =~= old(self).last_block_at_level@.take(level as int));
            assert forall|k: int| 0 <= k < self.last_block_at_level@.len() implies #[trigger] self.last_block_at_level@[k] < db.blocks@.len() by {
                assert(self.last_block_at_level@[k] == old(self).last_block_at_level@[k]);
            }
            Some(Some(self.last_block_at_level[level - 1]))
        } else {
            None
        }
    }

    /// The parent of a jump or option line at `level`: as for statements,
    /// but the level stack is only read.
    fn jump_parent(&self, level: usize, Ghost(db): Ghost<Database>) -> (r: Option<Option<BlockId>>)
        requires
            self.inv(db),
        ensures
            r matches Some(Some(p)) ==> p < db.blocks@.len(),
            if level < self.last_section_at_level@.len() {
                r == Some(Some(self.last_section_at_level@[level as int]))
            } else if level == 0 {
                r == Some(Some(self.last_block_at_level@[0]))
            } else if level <= self.last_block_at_level@.len() {
                r == Some(Some(self.last_block_at_level@[level - 1]))
            } else {
                r is None
            },
    {
        if level < self.last_section_at_level.len() {
            Some(Some(self.last_section_at_level[level]))
        } else if level == 0 {
            Some(Some(self.last_block_at_level[0]))
        } else if level <= self.last_block_at_level.len() {
            Some(Some(self.last_block_at_level[level - 1]))
        } else {
            None
        }
    }
}


/// The message for a line deeper than its context allows.
fn too_deep(level: usize, content: &[char]) -> (m: String)
    requires
        level <= usize::MAX / 2,
    ensures
        m@ == too_deep_message(level as nat, content@),
{
    let mut message = chars_of("found ");
    push_decimal(&mut message, (level * 2) as u64);
    let middle = chars_of(" spaces in: ");
    push_all(&mut message, middle.as_slice());
    push_all(&mut message, content);
    string_from_chars(message.as_slice())
}

/// The warning text for a name written with stray spaces around it.
pub open spec fn whitespace_warning(written: Seq<char>, trimmed: Seq<char>) -> Seq<char> {
    "Section name has leading/trailing whitespace: '"@ + written + "'. Trimmed to '"@ + trimmed + "'"@
}

fn whitespace_warning_text(written: &[char], trimmed: &[char]) -> (m: String)
    ensures
        m@ == whitespace_warning(written@, trimmed@),
{
    let mut message = chars_of("Section name has leading/trailing whitespace: '");
    push_all(&mut message, written);
    let middle = chars_of("'. Trimmed to '");
    push_all(&mut message, middle.as_slice());
    push_all(&mut message, trimmed);
    let end = chars_of("'");
    push_all(&mut message, end.as_slice());
    string_from_chars(message.as_slice())
}

impl Parser {
    /// Adding a block that is neither a section nor a jump keeps the
    /// reader's state consistent.
    proof fn lemma_inv_after_add(&self, old_db: Database, new_db: Database, block: Block, id: BlockId)
        requires
            self.inv(old_db),
            block.parent_id matches Some(p) ==> p < old_db.blocks@.len(),
            block.children@.len() == 0,
            !(block.block_type is Section),
            !(block.block_type is GoTo),
            !(block.block_type is GoToAndBack),
            old_db.type_refs_ok(block.block_type, true),
            id == old_db.blocks@.len(),
            new_db.blocks@.len() == old_db.blocks@.len() + 1,
            new_db.blocks@[id as int] == block,
            forall|i: int|
                0 <= i < old_db.blocks@.len() && block.parent_id != Some(i as BlockId) ==> new_db.blocks@[i] == old_db.blocks@[i],
            block.parent_id matches Some(p) ==> {
                &&& new_db.blocks@[p as int].children@ == old_db.blocks@[p as int].children@.push(id)
                &&& new_db.blocks@[p as int].block_type == old_db.blocks@[p as int].block_type
                &&& new_db.blocks@[p as int].parent_id == old_db.blocks@[p as int].parent_id
                &&& new_db.blocks@[p as int].level == old_db.blocks@[p as int].level
                &&& new_db.blocks@[p as int].line == old_db.blocks@[p as int].line
            },
            new_db.strings == old_db.strings,
            new_db.sections == old_db.sections,
            new_db.variables == old_db.variables,
        ensures
            self.inv(new_db),
            forall|i: int|
                0 <= i < old_db.blocks@.len() ==> (#[trigger] new_db.blocks@[i]).block_type == old_db.blocks@[i].block_type
                    && new_db.blocks@[i].parent_id == old_db.blocks@[i].parent_id
                    && new_db.blocks@[i].line == old_db.blocks@[i].line,
    {
        lemma_add_block_wf(old_db, new_db, block, id, true);
        assert forall|i: int| 0 <= i < new_db.blocks@.len() && (#[trigger] new_db.blocks@[i]).block_type is GoTo
            implies has_path(self.goto_paths@, i) by {
            assert(i < id);
            assert(new_db.blocks@[i].block_type == old_db.blocks@[i].block_type);
            assert(old_db.blocks@[i] == old_db.blocks@[i]);
        }
        assert forall|i: int| 0 <= i < new_db.blocks@.len() implies !((#[trigger] new_db.blocks@[i]).block_type is GoToAndBack) by {
            if i < id {
                assert(new_db.blocks@[i].block_type == old_db.blocks@[i].block_type);
                assert(old_db.blocks@[i] == old_db.blocks@[i]);
            }
        }
    }

    /// Records `block_id` as the last block at `level`: it replaces the
    /// entry at that level, or is appended when the stack is shorter.
    fn record_block(&mut self, level: usize, block_id: BlockId, Ghost(db): Ghost<Database>)
        requires
            old(self).inv(db),
            block_id < db.blocks@.len(),
        ensures
            final(self).inv(db),
            if level >= old(self).last_block_at_level@.len() {
                final(self).last_block_at_level@ == old(self).last_block_at_level@.push(block_id)
            } else {
                final(self).last_block_at_level@ == old(self).last_block_at_level@.update(level as int, block_id)
            },
            final(self).goto_paths == old(self).goto_paths,
            final(self).errors == old(self).errors,
            final(self).warnings == old(self).warnings,
            final(self).last_section_at_level == old(self).last_section_at_level,
            final(self).file_path == old(self).file_path,
            final(self).section_names_by_parent == old(self).section_names_by_parent,
            final(self).section_ids_by_parent == old(self).section_ids_by_parent,
            final(self).seen_non_option_by_parent == old(self).seen_non_option_by_parent,
    {
        if level >= self.last_block_at_level.len() {
            self.last_block_at_level.push(block_id);
        } else {
            self.last_block_at_level.set(level, block_id);
        }
        assert forall|k: int| 0 <= k < self.last_block_at_level@.len() implies #[trigger] self.last_block_at_level@[k] < db.blocks@.len() by {
            if k < old(self).last_block_at_level@.len() && k != level {
                assert(self.last_block_at_level@[k] == old(self).last_block_at_level@[k]);
            }
        }
    }

    /// Records the section block `block_id` as the last section at `level`.
    fn record_section(&mut self, level: usize, block_id: BlockId, Ghost(db): Ghost<Database>)
        requires
            old(self).inv(db),
            block_id < db.blocks@.len(),
        ensures
            final(self).inv(db),
            if level >= old(self).last_section_at_level@.len() {
                final(self).last_section_at_level@ == old(self).last_section_at_level@.push(block_id)
            } else {
                final(self).last_section_at_level@ == old(self).last_section_at_level@.update(level as int, block_id)
            },
            final(self).goto_paths == old(self).goto_paths,
            final(self).errors == old(self).errors,
            final(self).warnings == old(self).warnings,
            final(self).last_block_at_level == old(self).last_block_at_level,
            final(self).file_path == old(self).file_path,
            final(self).section_names_by_parent == old(self).section_names_by_parent,
            final(self).section_ids_by_parent == old(self).section_ids_by_parent,
            final(self).seen_non_option_by_parent == old(self).seen_non_option_by_parent,
    {
        if level >= self.last_section_at_level.len() {
            self.last_section_at_level.push(block_id);
        } else {
            self.last_section_at_level.set(level, block_id);
        }
        assert forall|k: int| 0 <= k < self.last_section_at_level@.len() implies #[trigger] self.last_section_at_level@[k] < db.blocks@.len() by {
            if k < old(self).last_section_at_level@.len() && k != level {
                assert(self.last_section_at_level@[k] == old(self).last_section_at_level@[k]);
            }
        }
    }

    /// Whether `parent_id` already has a child other than an option.
    fn has_non_option_child(&self, parent_id: BlockId) -> (b: bool)
        ensures
            b == self.seen_non_option_by_parent@.contains(parent_id),
    {
        let mut k: usize = 0;
        while k < self.seen_non_option_by_parent.len()
            invariant
                0 <= k <= self.seen_non_option_by_parent@.len(),
                forall|j: int| 0 <= j < k ==> self.seen_non_option_by_parent@[j] != parent_id,
            decreases self.seen_non_option_by_parent.len() - k,
        {
            if self.seen_non_option_by_parent[k] == parent_id {
                assert(self.seen_non_option_by_parent@[k as int] == parent_id);
                return true;
            }
            k = k + 1;
        }
        false
    }

    /// Notes that `parent_id` (if any) has a child other than an option.
    fn mark_non_option_child(&mut self, parent_id: Option<BlockId>)
        ensures
            forall|b: BlockId| #[trigger] final(self).seen_non_option_by_parent@.contains(b)
                <==> (old(self).seen_non_option_by_parent@.contains(b) || parent_id == Some(b)),
            final(self).goto_paths == old(self).goto_paths,
            final(self).errors == old(self).errors,
            final(self).warnings == old(self).warnings,
            final(self).last_block_at_level == old(self).last_block_at_level,
            final(self).last_section_at_level == old(self).last_section_at_level,
            final(self).file_path == old(self).file_path,
            final(self).section_names_by_parent == old(self).section_names_by_parent,
            final(self).section_ids_by_parent == old(self).section_ids_by_parent,
    {
        if let Some(p) = parent_id {
            if !self.has_non_option_child(p) {
                self.seen_non_option_by_parent.push(p);
                assert forall|b: BlockId| #[trigger] self.seen_non_option_by_parent@.contains(b)
                    <==> (old(self).seen_non_option_by_parent@.contains(b) || parent_id == Some(b)) by {
                    if old(self).seen_non_option_by_parent@.contains(b) {
                        let k = choose|k: int| 0 <= k < old(self).seen_non_option_by_parent@.len() && old(self).seen_non_option_by_parent@[k] == b;
                        assert(self.seen_non_option_by_parent@[k] == b);
                    }
                    if b == p {
                        assert(self.seen_non_option_by_parent@[old(self).seen_non_option_by_parent@.len() as int] == b);
                    }
                    if self.seen_non_option_by_parent@.contains(b) {
                        let k = choose|k: int| 0 <= k < self.seen_non_option_by_parent@.len() && self.seen_non_option_by_parent@[k] == b;
                        if k < old(self).seen_non_option_by_parent@.len() {
                            assert(old(self).seen_non_option_by_parent@[k] == b);
                        }
                    }
                }
            }
        }
    }
}


/// The first line recorded for `name` under `parent`, if any.
fn find_recorded(list: &Vec<(Option<BlockId>, String, usize)>, parent: Option<BlockId>, name: &[char]) -> (r: Option<usize>)
    ensures
        match r {
            Some(l) => exists|k: int| 0 <= k < list@.len() && (#[trigger] list@[k]).0 == parent && list@[k].1@ == name@ && list@[k].2 == l,
            None => forall|k: int| 0 <= k < list@.len() ==> !((#[trigger] list@[k]).0 == parent && list@[k].1@ == name@),
        },
{
    let mut k: usize = 0;
    while k < list.len()
        invariant
            0 <= k <= list@.len(),
            forall|j: int| 0 <= j < k ==> !((#[trigger] list@[j]).0 == parent && list@[j].1@ == name@),
        decreases list.len() - k,
    {
        let entry = &list[k];
        let text = chars_of(entry.1.as_str());
        if entry.0 == parent && chars_eq(text.as_slice(), name) {
            return Some(entry.2);
        }
        k = k + 1;
    }
    None
}

impl Parser {
    /// Adding a string keeps the reader's state consistent.
    proof fn lemma_inv_after_string(&self, old_db: Database, new_db: Database)
        requires
            self.inv(old_db),
            new_db.strings@.len() == old_db.strings@.len() + 1,
            new_db.strings@.drop_last() == old_db.strings@,
            new_db.blocks == old_db.blocks,
            new_db.sections == old_db.sections,
            new_db.variables == old_db.variables,
        ensures
            self.inv(new_db),
    {
        assert forall|s: int| 0 <= s < new_db.sections@.len() implies {
            let sec = #[trigger] new_db.sections@[s];
            &&& sec.block_id < new_db.blocks@.len()
            &&& new_db.blocks@[sec.block_id as int].block_type == BlockType::Section(s as SectionId)
            &&& sec.name < new_db.strings@.len()
            &&& sec.id < new_db.strings@.len()
            &&& sec.path < new_db.strings@.len()
            &&& sec.id_path < new_db.strings@.len()
        } by {
            assert(old_db.sections@[s] == new_db.sections@[s]);
        }
        assert forall|i: int| 0 <= i < new_db.blocks@.len() implies new_db.type_refs_ok(#[trigger] new_db.blocks@[i].block_type, true) by {
            assert(old_db.type_refs_ok(old_db.blocks@[i].block_type, true));
        }
    }

    /// Adds a text, `set` or `require` block at `level`; a line deeper than
    /// the lines before it allow is an error that stops the reading.
    fn add_statement(&mut self, context: &mut ParserContext, level: usize, content: &[char], block_type: BlockType) -> (r: Result<(), ParseError>)
        requires
            old(self).inv(old(context).database),
            level <= usize::MAX / 2,
            !(block_type is Section),
            !(block_type is GoTo),
            !(block_type is GoToAndBack),
            old(context).database.type_refs_ok(block_type, true),
        ensures
            r is Ok && final(self).errors@.len() == old(self).errors@.len() ==> forall|b: BlockId|
                #[trigger] final(self).seen_non_option_by_parent@.contains(b) <==> (old(self).seen_non_option_by_parent@.contains(b)
                    || final(context).database.blocks@.last().parent_id == Some(b)),
            final(self).section_names_by_parent == old(self).section_names_by_parent,
            final(self).section_ids_by_parent == old(self).section_ids_by_parent,
            final(context).database.strings == old(context).database.strings,
            final(self).goto_paths == old(self).goto_paths,
            final(context).database.variables == old(context).database.variables,
            final(self).inv(final(context).database),
            final(context).current_line == old(context).current_line,
            final(context).file_path == old(context).file_path,
            final(self).file_path == old(self).file_path,
            final(self).errors == old(self).errors,
            final(self).warnings == old(self).warnings,
            final(self).last_section_at_level == old(self).last_section_at_level,
            (r is Ok) == stack_admits(
                level as int,
                old(self).last_block_at_level@.len() as int,
                old(self).last_section_at_level@.len() as int,
            ),
            r is Ok ==> final(self).last_block_at_level@.len() == stack_after(
                level as int,
                old(self).last_block_at_level@.len() as int,
                old(self).last_section_at_level@.len() as int,
            ),
            r is Ok ==> {
                &&& final(self).last_block_at_level@ == line_stacks(old(self).stacks(), LineBlock::Text(seq![]), level as int, old(context).database.blocks@.len() as BlockId).blocks
                &&& final(self).last_section_at_level@ == line_stacks(old(self).stacks(), LineBlock::Text(seq![]), level as int, old(context).database.blocks@.len() as BlockId).sections
                &&& final(context).database.blocks@.last().parent_id == Some(line_parent(old(self).stacks(), LineBlock::Text(seq![]), level as int))
            },
            final(context).database.blocks@.len() >= old(context).database.blocks@.len(),
            keeps_blocks(old(context).database, final(context).database),
            match r {
                Ok(()) => {
                    &&& final(context).database.blocks@.len() == old(context).database.blocks@.len() + 1
                    &&& final(context).database.blocks@.last().block_type == block_type
                    &&& final(context).database.blocks@.last().level == level
                    &&& final(context).database.blocks@.last().line == old(context).current_line
                },
                Err(e) => e matches ParseError::InvalidIndentation { message, file, line }
                    && message@ == too_deep_message(level as nat, content@) && file == old(self).file_path
                    && line == old(context).current_line,
            },
    {
        let parent = match self.statement_parent(level, Ghost(context.database)) {
            Some(p) => p,
            None => {
                return Err(ParseError::InvalidIndentation {
                    message: too_deep(level, content),
                    file: self.file_path.clone(),
                    line: context.current_line,
                });
            },
        };
        let block = Block::with_line(block_type, parent, level, context.current_line);
        let ghost old_db = context.database;
        let ghost new_block = block;
        let id = context.database.add_block(block);
        proof {
            self.lemma_inv_after_add(old_db, context.database, new_block, id);
        }
        self.record_block(level, id, Ghost(context.database));
        self.mark_non_option_child(parent);
        Ok(())
    }

    /// Adds a jump to `path` at `level` (its target is resolved once all
    /// lines are read). A path with stray spaces is trimmed, with a warning.
    fn add_jump(&mut self, context: &mut ParserContext, level: usize, content: &[char], path: String)
        requires
            old(self).inv(old(context).database),
            level <= usize::MAX / 2,
        ensures
            final(self).errors@.len() == old(self).errors@.len() ==> forall|b: BlockId|
                #[trigger] final(self).seen_non_option_by_parent@.contains(b) <==> (old(self).seen_non_option_by_parent@.contains(b)
                    || final(context).database.blocks@.last().parent_id == Some(b)),
            final(self).section_names_by_parent == old(self).section_names_by_parent,
            final(self).section_ids_by_parent == old(self).section_ids_by_parent,
            (final(self).errors@.len() == old(self).errors@.len()) == stack_admits(
                level as int,
                old(self).last_block_at_level@.len() as int,
                old(self).last_section_at_level@.len() as int,
            ),
            trim(path@) != path@ ==> warns_items(old(self).warnings@, final(self).warnings@, old(self).file_path,
                seq![(whitespace_warning(path@, trim(path@)), old(context).current_line)]),
            trim(path@) == path@ ==> final(self).warnings == old(self).warnings,
            final(self).errors@.subrange(0, old(self).errors@.len() as int) == old(self).errors@,
            final(self).errors@.len() == old(self).errors@.len() ==> {
                &&& final(self).goto_paths@.len() == old(self).goto_paths@.len() + 1
                &&& final(self).goto_paths@.drop_last() == old(self).goto_paths@
                &&& final(self).goto_paths@.last().0 == old(context).database.blocks@.len()
                &&& final(self).goto_paths@.last().1@ == trim(path@)
            },
            final(self).errors@.len() != old(self).errors@.len() ==> final(self).goto_paths == old(self).goto_paths,
            final(context).database.variables == old(context).database.variables,
            final(self).inv(final(context).database),
            final(context).current_line == old(context).current_line,
            final(context).file_path == old(context).file_path,
            final(self).file_path == old(self).file_path,
            final(context).database.blocks@.len() >= old(context).database.blocks@.len(),
            keeps_blocks(old(context).database, final(context).database),
            final(self).errors@.len() >= old(self).errors@.len(),
            final(self).errors@.len() == old(self).errors@.len() ==> added_one(
                old(context).database,
                final(context).database,
                old(context).current_line,
                level,
            ),
            final(self).errors@.len() == old(self).errors@.len() ==> final(context).database.blocks@.last().block_type is GoTo,
            final(self).errors@.len() == old(self).errors@.len() ==> {
                &&& final(self).last_block_at_level@ == line_stacks(old(self).stacks(), LineBlock::Jump, level as int, old(context).database.blocks@.len() as BlockId).blocks
                &&& final(self).last_section_at_level@ == line_stacks(old(self).stacks(), LineBlock::Jump, level as int, old(context).database.blocks@.len() as BlockId).sections
                &&& final(context).database.blocks@.last().parent_id == Some(line_parent(old(self).stacks(), LineBlock::Jump, level as int))
            },
    {
        let path_chars = chars_of(path.as_str());
        let trimmed = trim_chars(path_chars.as_slice());
        let final_path = if !chars_eq(trimmed.as_slice(), path_chars.as_slice()) {
            let ghost w0 = self.warnings@;
            self.warnings.push(Warning {
                message: whitespace_warning_text(path_chars.as_slice(), trimmed.as_slice()),
                file: self.file_path.clone(),
                line: context.current_line,
            });
            proof {
                assert(self.warnings@.drop_last() =~= w0);
                lemma_items_one(w0, self.warnings@, self.file_path, (whitespace_warning(path@, trim(path@)), context.current_line));
            }
            string_from_chars(trimmed.as_slice())
        } else {
            path
        };
        let parent = match self.jump_parent(level, Ghost(context.database)) {
            Some(p) => p,
            None => {
                self.errors.push(ParseError::InvalidIndentation {
                    message: too_deep(level, content),
                    file: self.file_path.clone(),
                    line: context.current_line,
                });
                return;
            },
        };
        let block = Block::with_line(BlockType::GoTo(0), parent, level, context.current_line);
        let ghost old_db = context.database;
        let ghost new_block = block;
        let ghost old_paths = self.goto_paths@;
        let id = context.database.add_block(block);
        self.goto_paths.push((id, final_path));
        proof {
            lemma_add_block_wf(old_db, context.database, new_block, id, true);
            let db = context.database;
            assert(self.goto_paths@[old_paths.len() as int].0 == id);
            assert forall|k: int| 0 <= k < self.goto_paths@.len() implies (#[trigger] self.goto_paths@[k]).0 < db.blocks@.len() by {
                if k < old_paths.len() {
                    assert(self.goto_paths@[k] == old_paths[k]);
                }
            }
            assert forall|i: int| 0 <= i < db.blocks@.len() && (#[trigger] db.blocks@[i]).block_type is GoTo
                implies has_path(self.goto_paths@, i) by {
                if i == id {
                    assert(self.goto_paths@[old_paths.len() as int].0 == i);
                } else {
                    assert(db.blocks@[i].block_type == old_db.blocks@[i].block_type);
                    assert(old_db.blocks@[i] == old_db.blocks@[i]);
                    assert(has_path(old_paths, i));
                    let k = choose|k: int| 0 <= k < old_paths.len() && (#[trigger] old_paths[k]).0 == i;
                    assert(self.goto_paths@[k] == old_paths[k]);
                }
            }
            assert forall|i: int| 0 <= i < db.blocks@.len() implies !((#[trigger] db.blocks@[i]).block_type is GoToAndBack) by {
                if i < id {
                    assert(db.blocks@[i].block_type == old_db.blocks@[i].block_type);
                    assert(old_db.blocks@[i] == old_db.blocks@[i]);
                }
            }
        }
        self.record_block(level, id, Ghost(context.database));
        self.mark_non_option_child(parent);
    }

    /// Adds an option (`* text`) at `level`. An option needs a text or
    /// option line as parent, one level up, with no other kind of child
    /// before it.
    fn add_option(&mut self, context: &mut ParserContext, level: usize, content: &[char], text: &str)
        requires
            old(self).inv(old(context).database),
            level <= usize::MAX / 2,
        ensures
            final(self).seen_non_option_by_parent == old(self).seen_non_option_by_parent,
            final(self).warnings == old(self).warnings,
            is_option_text(text@) && level > 0 && stack_admits(
                level as int,
                old(self).last_block_at_level@.len() as int,
                old(self).last_section_at_level@.len() as int,
            ) && ({
                let p = line_parent(old(self).stacks(), LineBlock::Option(seq![]), level as int);
                &&& old(context).database.blocks@[p as int].block_type is String || old(context).database.blocks@[p as int].block_type is Option
                &&& !old(self).seen_non_option_by_parent@.contains(p)
            }) ==> final(self).errors@.len() == old(self).errors@.len(),
            final(self).section_names_by_parent == old(self).section_names_by_parent,
            final(self).section_ids_by_parent == old(self).section_ids_by_parent,
            level == 0 && is_option_text(text@) ==> (final(self).errors@.len() == old(self).errors@.len() + 1
                && (final(self).errors@.last() matches ParseError::OptionsWithoutParent { file, line }
                && file == old(self).file_path && line == old(context).current_line)),
            final(self).errors@.subrange(0, old(self).errors@.len() as int) == old(self).errors@,
            final(self).goto_paths == old(self).goto_paths,
            final(context).database.variables == old(context).database.variables,
            final(self).inv(final(context).database),
            final(context).current_line == old(context).current_line,
            final(context).file_path == old(context).file_path,
            final(self).file_path == old(self).file_path,
            final(context).database.blocks@.len() >= old(context).database.blocks@.len(),
            keeps_blocks(old(context).database, final(context).database),
            final(self).errors@.len() >= old(self).errors@.len(),
            final(self).errors@.len() == old(self).errors@.len() ==> added_one(
                old(context).database,
                final(context).database,
                old(context).current_line,
                level,
            ),
            final(self).errors@.len() == old(self).errors@.len() ==> (final(context).database.blocks@.last().block_type matches BlockType::Option(sid)
                && sid < final(context).database.strings@.len()
                && final(context).database.strings@[sid as int]@ == trim(trim_start(text@).drop_first())),
            final(self).errors@.len() == old(self).errors@.len() ==> {
                &&& final(self).last_block_at_level@ == line_stacks(old(self).stacks(), LineBlock::Option(seq![]), level as int, old(context).database.blocks@.len() as BlockId).blocks
                &&& final(self).last_section_at_level@ == line_stacks(old(self).stacks(), LineBlock::Option(seq![]), level as int, old(context).database.blocks@.len() as BlockId).sections
                &&& final(context).database.blocks@.last().parent_id == Some(line_parent(old(self).stacks(), LineBlock::Option(seq![]), level as int))
            },
    {
        let option_parser = OptionParser::new();
        let result = match option_parser.parse(text, context) {
            Ok(r) => r,
            Err(e) => {
                self.errors.push(e);
                return;
            },
        };
        let parent = match self.jump_parent(level, Ghost(context.database)) {
            Some(p) => p,
            None => {
                self.errors.push(ParseError::InvalidIndentation {
                    message: too_deep(level, content),
                    file: self.file_path.clone(),
                    line: context.current_line,
                });
                return;
            },
        };
        let parent_id = match parent {
            Some(p) => p,
            None => {
                self.errors.push(ParseError::OptionsWithoutParent { file: self.file_path.clone(), line: context.current_line });
                return;
            },
        };
        if level == 0 {
            self.errors.push(ParseError::OptionsWithoutParent { file: self.file_path.clone(), line: context.current_line });
            return;
        }
        let parent_ok = match context.database.blocks[parent_id].block_type {
            BlockType::String(_) | BlockType::Option(_) => true,
            _ => false,
        };
        if !parent_ok || self.has_non_option_child(parent_id) {
            self.errors.push(ParseError::OptionsWithoutParent { file: self.file_path.clone(), line: context.current_line });
            return;
        }
        let ghost db0 = context.database;
        let string_id = context.database.add_string(result.text);
        proof {
            assert(context.database.strings@.drop_last() =~= db0.strings@);
            self.lemma_inv_after_string(db0, context.database);
        }
        let block = Block::with_line(BlockType::Option(string_id), Some(parent_id), level, context.current_line);
        let ghost old_db = context.database;
        let ghost new_block = block;
        let id = context.database.add_block(block);
        proof {
            self.lemma_inv_after_add(old_db, context.database, new_block, id);
        }
        if self.last_block_at_level.len() > level {
            self.last_block_at_level.truncate(level);
            proof {
                let db = context.database;
                assert forall|k: int| 0 <= k < self.last_block_at_level@.len() implies #[trigger] self.last_block_at_level@[k] < db.blocks@.len() by {
                    assert(self.last_block_at_level@[k] == old(self).last_block_at_level@[k]);
                }
            }
        }
        self.record_block(level, id, Ghost(context.database));
    }
}


/// Where reading a script's lines stands: inside the variables block or
/// not, whether the block was met, whether content was met, and the
/// indices of the lines read as content so far.
pub struct LineScan {
    pub in_variables: bool,
    pub variables_started: bool,
    pub saw_content: bool,
    pub contents: Seq<int>,
    /// The indices of the lines read as variable definitions.
    pub definitions: Seq<int>,
}

/// Reads the first `k` lines: a `--- variables` line before any content
/// opens the variables block, which `---` closes; comments and blank lines
/// are skipped; a later `--- variables` line is refused; every other line
/// is content.
pub open spec fn scan_lines(ls: Seq<Seq<char>>, k: int) -> LineScan
    decreases k,
{
    if k <= 0 {
        LineScan {
            in_variables: false,
            variables_started: false,
            saw_content: false,
            contents: seq![],
            definitions: seq![],
        }
    } else {
        let st = scan_lines(ls, k - 1);
        let line = ls[k - 1];
        let t = trim(line);
        if st.in_variables {
            if t == "---"@ {
                LineScan { in_variables: false, ..st }
            } else if t.len() > 0 && !is_comment_line(line) {
                LineScan { definitions: st.definitions.push(k - 1), ..st }
            } else {
                st
            }
        } else if !st.variables_started && !st.saw_content && t == "--- variables"@ {
            LineScan { in_variables: true, variables_started: true, ..st }
        } else if is_comment_line(line) || t.len() == 0 || t == "--- variables"@ {
            st
        } else {
            LineScan { saw_content: true, contents: st.contents.push(k - 1), ..st }
        }
    }
}

/// The indices of a script's variable definition lines.
pub open spec fn definition_lines(script: Seq<char>) -> Seq<int> {
    scan_lines(lines_of(script), lines_of(script).len() as int).definitions
}

/// The indices of a script's content lines: those that make blocks.
pub open spec fn content_lines(script: Seq<char>) -> Seq<int> {
    scan_lines(lines_of(script), lines_of(script).len() as int).contents
}

/// The variable a definition line (trimmed) declares when it is a valid
/// `int` definition: its name and its default (`0` when none is given).
pub open spec fn int_definition(t: Seq<char>) -> Option<(Seq<char>, i64)> {
    let (kind, rest) = definition_parts(t);
    let (name, default) = name_and_default(rest);
    if kind != "int"@ || rest.len() == 0 || name.len() == 0 {
        None
    } else {
        match default {
            Some(text) => match i64_text_value(text) {
                Some(v) => Some((name, v)),
                None => None,
            },
            None => Some((name, 0)),
        }
    }
}

/// The variables of `db` are those the definition lines `defs` of `ls`
/// declare, in order.
pub open spec fn variables_follow(db: Database, ls: Seq<Seq<char>>, defs: Seq<int>) -> bool {
    &&& db.variables@.len() == defs.len()
    &&& forall|j: int|
        0 <= j < defs.len() ==> (#[trigger] db.variables@[j]).default is Integer && int_definition(trim(ls[defs[j]]))
            == Some((db.variables@[j].name@, db.variables@[j].default->Integer_0))
}

proof fn lemma_variables_follow_push(old_db: Database, new_db: Database, ls: Seq<Seq<char>>, defs: Seq<int>, idx: int)
    requires
        variables_follow(old_db, ls, defs),
        new_db.variables@.len() == old_db.variables@.len() + 1,
        new_db.variables@.drop_last() == old_db.variables@,
        new_db.variables@.last().default is Integer,
        int_definition(trim(ls[idx])) == Some((new_db.variables@.last().name@, new_db.variables@.last().default->Integer_0)),
    ensures
        variables_follow(new_db, ls, defs.push(idx)),
{
    let d2 = defs.push(idx);
    assert forall|j: int| 0 <= j < d2.len() implies (#[trigger] new_db.variables@[j]).default is Integer && int_definition(trim(ls[d2[j]]))
        == Some((new_db.variables@[j].name@, new_db.variables@[j].default->Integer_0)) by {
        if j < defs.len() {
            assert(new_db.variables@[j] == new_db.variables@.drop_last()[j]);
            assert(d2[j] == defs[j]);
        }
    }
}

/// The blocks after the first follow the content lines `cl` of `ls`, one
/// each: the block carries the line's number and indentation level.
pub open spec fn blocks_follow(db: Database, ls: Seq<Seq<char>>, cl: Seq<int>) -> bool {
    &&& db.blocks@.len() >= cl.len() + 1
    &&& forall|j: int|
        0 <= j < cl.len() ==> (#[trigger] db.blocks@[j + 1]).line == cl[j] + 1
            && indentation(ls[cl[j]]) == Indentation::Level(db.blocks@[j + 1].level as nat)
            && block_matches(db, j + 1, line_block(content_text(ls[cl[j]], db.blocks@[j + 1].level)))
}

/// What a content line makes, by its text after the indentation (trimmed).
pub enum LineBlock {
    Section,
    Jump,
    /// A `set` statement.
    Assignment,
    /// A `require` statement.
    Requirement,
    /// An option, with its text.
    Option(Seq<char>),
    /// A line of text.
    Text(Seq<char>),
}

/// The kind of block the content text `t` makes; the first test that
/// matches decides.
pub open spec fn line_block(t: Seq<char>) -> LineBlock {
    if trim_start(t).len() > 0 && trim_start(t)[0] == '#' {
        LineBlock::Section
    } else if has_prefix(trim_start(t), "->"@) {
        LineBlock::Jump
    } else if is_statement(t, "set"@) {
        LineBlock::Assignment
    } else if is_statement(t, "require"@) {
        LineBlock::Requirement
    } else if is_option_text(t) {
        LineBlock::Option(trim(trim_start(t).drop_first()))
    } else {
        LineBlock::Text(t)
    }
}

/// The target written after `->` in the content text `t`, trimmed.
pub open spec fn jump_text(t: Seq<char>) -> Seq<char> {
    trim(trim_start(t).skip(3))
}

/// A jump: to a section (and back), or to a special target.
pub open spec fn is_jump_type(t: BlockType) -> bool {
    t is GoTo || t is GoToAndBack || t is GoToStart || t is GoToRestart || t is GoToEnd
}

/// Whether block `b` of `db` is of the kind `k` (with the text it names).
pub open spec fn block_matches(db: Database, b: int, k: LineBlock) -> bool {
    let t = db.blocks@[b].block_type;
    match k {
        LineBlock::Section => t is Section,
        LineBlock::Jump => is_jump_type(t),
        LineBlock::Assignment => t is SetVariable,
        LineBlock::Requirement => t is RequireVariable,
        LineBlock::Option(text) => t matches BlockType::Option(sid) && sid < db.strings@.len()
            && db.strings@[sid as int]@ == text,
        LineBlock::Text(text) => t matches BlockType::String(sid) && sid < db.strings@.len()
            && db.strings@[sid as int]@ == text,
    }
}

/// The text of a line after `level` levels of indentation, trimmed.
pub open spec fn content_text(line: Seq<char>, level: usize) -> Seq<char> {
    trim(line.skip(2 * level as int))
}

/// Whether a statement at `level` has a parent, given `blocks` levels of
/// open blocks and `sections` levels of open sections.
pub open spec fn stack_admits(level: int, blocks: int, sections: int) -> bool {
    level < sections || level == 0 || level <= blocks
}

/// How many levels of open blocks there are after a statement at `level`.
pub open spec fn stack_after(level: int, blocks: int, sections: int) -> int {
    if level < sections || level == 0 {
        if level >= blocks { blocks + 1 } else { blocks }
    } else {
        level + 1
    }
}

/// The open blocks and sections while reading: for each level, the last
/// block and the last section seen there (the start block, 0, stands for
/// the root).
pub struct Stacks {
    pub blocks: Seq<BlockId>,
    pub sections: Seq<BlockId>,
}

/// The stacks before any line is read.
pub open spec fn initial_stacks() -> Stacks {
    Stacks { blocks: seq![0], sections: seq![0] }
}

/// `s` with `id` recorded at `level`: it replaces the entry there, or is
/// appended when `s` is shorter.
pub open spec fn record_at(s: Seq<BlockId>, level: int, id: BlockId) -> Seq<BlockId> {
    if level >= s.len() {
        s.push(id)
    } else {
        s.update(level, id)
    }
}

/// The parent of a line of kind `k` at `level`. A section hangs below the
/// section open one level up (the start block at level 0). Any other line
/// hangs below the section open at its own level if there is one, else
/// below the block open one level up (the first open block at level 0).
pub open spec fn line_parent(st: Stacks, k: LineBlock, level: int) -> BlockId {
    match k {
        LineBlock::Section => if level == 0 { 0 } else { st.sections[level - 1] },
        _ => if level < st.sections.len() {
            st.sections[level]
        } else if level == 0 {
            st.blocks[0]
        } else {
            st.blocks[level - 1]
        },
    }
}

/// The stacks after a line of kind `k` at `level` became block `id`.
pub open spec fn line_stacks(st: Stacks, k: LineBlock, level: int, id: BlockId) -> Stacks {
    match k {
        LineBlock::Section => Stacks {
            blocks: record_at(st.blocks, level, id),
            sections: if level == 0 { st.sections.update(0, id) } else { st.sections.take(level).push(id) },
        },
        LineBlock::Jump => Stacks { blocks: record_at(st.blocks, level, id), sections: st.sections },
        LineBlock::Option(_) => Stacks {
            blocks: record_at(if st.blocks.len() > level { st.blocks.take(level) } else { st.blocks }, level, id),
            sections: st.sections,
        },
        _ => Stacks {
            blocks: record_at(
                if level < st.sections.len() || level == 0 { st.blocks } else { st.blocks.take(level) },
                level,
                id,
            ),
            sections: st.sections,
        },
    }
}

/// The indentation level of a line indented by whole levels.
pub open spec fn line_level(line: Seq<char>) -> int {
    match indentation(line) {
        Indentation::Level(l) => l as int,
        _ => 0,
    }
}

/// The kind of content line `cl[j]` of `ls`.
pub open spec fn line_kind(ls: Seq<Seq<char>>, cl: Seq<int>, j: int) -> LineBlock {
    let line = ls[cl[j]];
    line_block(content_text(line, line_level(line) as usize))
}

/// The stacks after the first `n` content lines `cl` of `ls` became blocks
/// 1 to `n`.
pub open spec fn stacks_after(ls: Seq<Seq<char>>, cl: Seq<int>, n: int) -> Stacks
    decreases n,
{
    if n <= 0 {
        initial_stacks()
    } else {
        line_stacks(stacks_after(ls, cl, n - 1), line_kind(ls, cl, n - 1), line_level(ls[cl[n - 1]]), n as BlockId)
    }
}

/// The parent of the block made from content line `cl[j]` of `ls`.
pub open spec fn expected_parent(ls: Seq<Seq<char>>, cl: Seq<int>, j: int) -> BlockId {
    line_parent(stacks_after(ls, cl, j), line_kind(ls, cl, j), line_level(ls[cl[j]]))
}

/// Each block made from a content line has the parent the open blocks and
/// sections give it.
pub open spec fn parents_follow(db: Database, ls: Seq<Seq<char>>, cl: Seq<int>) -> bool {
    forall|j: int| 0 <= j < cl.len() ==> (#[trigger] db.blocks@[j + 1]).parent_id == Some(expected_parent(ls, cl, j))
}

proof fn lemma_stacks_prefix(ls: Seq<Seq<char>>, c: Seq<int>, x: int, n: int)
    requires
        0 <= n <= c.len(),
    ensures
        stacks_after(ls, c.push(x), n) == stacks_after(ls, c, n),
    decreases n,
{
    if n > 0 {
        lemma_stacks_prefix(ls, c, x, n - 1);
        assert(c.push(x)[n - 1] == c[n - 1]);
    }
}

proof fn lemma_parents_added(
    old_db: Database,
    new_db: Database,
    ls: Seq<Seq<char>>,
    c: Seq<int>,
    idx: int,
    level: int,
    st: Stacks,
)
    requires
        parents_follow(old_db, ls, c),
        old_db.blocks@.len() == c.len() + 1,
        new_db.blocks@.len() == old_db.blocks@.len() + 1,
        forall|i: int| 0 <= i < old_db.blocks@.len() ==> (#[trigger] new_db.blocks@[i]).parent_id == old_db.blocks@[i].parent_id,
        st == stacks_after(ls, c, c.len() as int),
        line_level(ls[idx]) == level,
        new_db.blocks@.last().parent_id == Some(line_parent(st, line_kind(ls, c.push(idx), c.len() as int), level)),
    ensures
        parents_follow(new_db, ls, c.push(idx)),
        stacks_after(ls, c.push(idx), c.len() + 1 as int) == line_stacks(
            st,
            line_kind(ls, c.push(idx), c.len() as int),
            level,
            (c.len() + 1) as BlockId,
        ),
{
    let c2 = c.push(idx);
    lemma_stacks_prefix(ls, c, idx, c.len() as int);
    assert forall|j: int| 0 <= j < c2.len() implies (#[trigger] new_db.blocks@[j + 1]).parent_id == Some(expected_parent(ls, c2, j)) by {
        if j < c.len() {
            lemma_stacks_prefix(ls, c, idx, j);
            assert(c2[j] == c[j]);
            assert(old_db.blocks@[j + 1].parent_id == Some(expected_parent(ls, c, j)));
        }
    }
}

/// Whether no two entries of a table of section names share their parent
/// and name: each key occurs once.
pub open spec fn keys_distinct(t: Seq<(Option<BlockId>, String, usize)>) -> bool {
    forall|i: int, j: int| 0 <= i < j < t.len() ==> !((#[trigger] t[i]).0 == (#[trigger] t[j]).0 && t[i].1@ == t[j].1@)
}

/// Whether no error of `e` is itself a collection of errors.
pub open spec fn flat_errors(e: Seq<ParseError>) -> bool {
    forall|k: int| 0 <= k < e.len() ==> !(#[trigger] e[k] is MultipleErrors)
}

/// Whether a line is blank or a comment.
pub open spec fn is_quiet_line(line: Seq<char>) -> bool {
    trim(line).len() == 0 || is_comment_line(line)
}

/// The level of a line of plain text: a line that is neither blank nor a
/// comment, indented by whole levels, whose text is not a section, a jump,
/// a statement or an option.
pub open spec fn text_level(line: Seq<char>) -> Option<nat> {
    match indentation(line) {
        Indentation::Level(l) => if !is_quiet_line(line) && line_block(content_text(line, l as usize)) is Text {
            Some(l)
        } else {
            None
        },
        _ => None,
    }
}

/// How many levels of open blocks there are after the first `k` lines of a
/// script of plain text: a line at level 0 keeps them, a deeper line at
/// level `l` leaves `l + 1`.
pub open spec fn open_depth(ls: Seq<Seq<char>>, k: int) -> nat
    decreases k,
{
    if k <= 0 {
        1
    } else {
        let d = open_depth(ls, k - 1);
        match text_level(ls[k - 1]) {
            Some(l) => if l == 0 { d } else { l + 1 },
            None => d,
        }
    }
}

/// Whether a script is plain text: no line is the variables header, and
/// each line is blank, a comment, or plain text at most as deep as the
/// levels open before it.
pub open spec fn plain_script(ls: Seq<Seq<char>>) -> bool {
    &&& forall|i: int| 0 <= i < ls.len() ==> trim(#[trigger] ls[i]) != "--- variables"@
        && (is_quiet_line(ls[i]) || text_level(ls[i]) is Some)
    &&& forall|k: int| 0 <= k < ls.len() ==> ((#[trigger] text_level(ls[k])) matches Some(l) ==> l <= open_depth(ls, k))
}

/// Whether the content text `t` is malformed whatever variables are
/// declared: a section header without a title, a jump without a
/// well-formed target, a `set` without a name and `=`, or a `require`
/// without its three parts.
pub open spec fn malformed_text(t: Seq<char>) -> bool {
    match line_block(t) {
        LineBlock::Section => header_title(t).len() == 0,
        LineBlock::Jump => {
            let s = trim_start(t);
            !has_prefix(s, "-> "@) || trim(s.skip(3)).len() == 0 || !path_spacing_ok(s.skip(3))
        },
        LineBlock::Assignment => {
            let rest = trim(t.skip(3));
            rest.len() == 0 || match first_index(rest, '=') {
                None => true,
                Some(i) => trim(rest.take(i)).len() == 0,
            }
        },
        LineBlock::Requirement => {
            let rest = trim(t.skip(7));
            rest.len() == 0 || words_from(rest, 0).len() != 3
        },
        _ => false,
    }
}

/// Whether line `i` of `ls` is refused however the rest of the script
/// reads: outside the variables block, it is the variables header after
/// content or after the block, or it is a content line indented by a tab or
/// an odd number of spaces, or whose text is malformed.
pub open spec fn refused_line(ls: Seq<Seq<char>>, i: int) -> bool {
    let st = scan_lines(ls, i);
    let line = ls[i];
    let t = trim(line);
    &&& 0 <= i < ls.len()
    &&& !st.in_variables
    &&& !(!st.variables_started && !st.saw_content && t == "--- variables"@)
    &&& !is_quiet_line(line)
    &&& (t == "--- variables"@ || match indentation(line) {
        Indentation::Level(l) => malformed_text(content_text(line, l as usize))
            || (l == 0 && line_block(content_text(line, 0)) is Option),
        _ => true,
    })
}

/// The errors a result reports: those collected, or the one error.
pub open spec fn errors_of<T>(r: Result<T, ParseError>) -> Seq<ParseError> {
    match r {
        Ok(_) => seq![],
        Err(ParseError::MultipleErrors { errors }) => errors@,
        Err(e) => seq![e],
    }
}

/// Whether the reading stopped at a line deeper than the open levels allow:
/// one indentation error, with the errors collected before it dropped. The
/// error names the script's `file` and the number of a content line of `ls`
/// indented by two levels or more (one level deeper than the line before it
/// is always allowed).
pub open spec fn stopped_early<T>(ls: Seq<Seq<char>>, file: Option<String>, r: Result<T, ParseError>) -> bool {
    &&& r matches Err(ParseError::InvalidIndentation { file: f, line: l, .. })
    &&& f == file
    &&& exists|i: int| #![trigger ls[i]] 0 <= i < ls.len() && l == i + 1 && !is_quiet_line(ls[i])
        && (indentation(ls[i]) matches Indentation::Level(lv) && lv >= 2)
}

/// Whether `e` is the error the malformed content text `t` at line `line`
/// of `file` is reported with.
pub open spec fn text_fault_error(t: Seq<char>, file: Option<String>, line: usize, e: ParseError) -> bool {
    match line_block(t) {
        LineBlock::Section => e matches ParseError::SectionWithoutTitle { file: f, line: l } && f == file && l == line,
        LineBlock::Jump => e matches ParseError::InvalidGoToSection { file: f, line: l, .. } && f == file && l == line,
        LineBlock::Assignment => (e matches ParseError::InvalidSetSyntax { line: l } && l == line)
            || (e matches ParseError::MissingVariableName { line: l } && l == line),
        LineBlock::Requirement => e matches ParseError::InvalidRequireSyntax { line: l } && l == line,
        _ => false,
    }
}

/// The strings of `db` are the texts of the content lines `cl` of `ls`,
/// one each, in order.
pub open spec fn plain_strings(db: Database, ls: Seq<Seq<char>>, cl: Seq<int>) -> bool {
    &&& db.strings@.len() == cl.len()
    &&& forall|j: int| 0 <= j < cl.len() ==> (#[trigger] db.strings@[j])@ == content_text(ls[cl[j]], line_level(ls[cl[j]]) as usize)
}

/// Whether `e` is the error line `i` of `ls` (see [`refused_line`]) is
/// reported with, when the script comes from `file`.
pub open spec fn line_fault_error(ls: Seq<Seq<char>>, i: int, file: Option<String>, e: ParseError) -> bool {
    let line = ls[i];
    if trim(line) == "--- variables"@ {
        e matches ParseError::VariablesBlockNotAtTop { line: l } && l == i + 1
    } else {
        match indentation(line) {
            Indentation::Level(lv) => if lv == 0 && line_block(content_text(line, 0)) is Option {
                e matches ParseError::OptionsWithoutParent { file: f, line: l } && f == file && l == i + 1
            } else {
                text_fault_error(content_text(line, lv as usize), file, (i + 1) as usize, e)
            },
            _ => e matches ParseError::InvalidIndentation { file: f, line: l, .. } && f == file && l == i + 1,
        }
    }
}

/// Whether each line of `ls` before line `n` that cannot be read (see
/// [`refused_line`]) has its error (see [`line_fault_error`]) among `e`.
#[verifier::opaque]
pub open spec fn faults_reported(ls: Seq<Seq<char>>, n: int, file: Option<String>, e: Seq<ParseError>) -> bool {
    forall|i: int| 0 <= i < n && #[trigger] refused_line(ls, i) ==> exists|k: int|
        0 <= k < e.len() && line_fault_error(ls, i, file, #[trigger] e[k])
}

proof fn lemma_faults_kept(ls: Seq<Seq<char>>, n: int, file: Option<String>, a: Seq<ParseError>, b: Seq<ParseError>)
    requires
        faults_reported(ls, n, file, a),
        a.len() <= b.len(),
        forall|k: int| 0 <= k < a.len() ==> #[trigger] b[k] == a[k],
    ensures
        faults_reported(ls, n, file, b),
{
    reveal(faults_reported);
    assert forall|i: int| 0 <= i < n && #[trigger] refused_line(ls, i) implies exists|k: int|
        0 <= k < b.len() && line_fault_error(ls, i, file, #[trigger] b[k]) by {
        let k = choose|k: int| 0 <= k < a.len() && line_fault_error(ls, i, file, #[trigger] a[k]);
        assert(b[k] == a[k]);
    }
}

proof fn lemma_faults_step(ls: Seq<Seq<char>>, n: int, file: Option<String>, a: Seq<ParseError>, b: Seq<ParseError>, w: int)
    requires
        faults_reported(ls, n, file, a),
        a.len() <= b.len(),
        forall|k: int| 0 <= k < a.len() ==> #[trigger] b[k] == a[k],
        refused_line(ls, n) ==> 0 <= w < b.len() && line_fault_error(ls, n, file, b[w]),
    ensures
        faults_reported(ls, n + 1, file, b),
{
    lemma_faults_kept(ls, n, file, a, b);
    reveal(faults_reported);
    assert forall|i: int| 0 <= i < n + 1 && #[trigger] refused_line(ls, i) implies exists|k: int|
        0 <= k < b.len() && line_fault_error(ls, i, file, #[trigger] b[k]) by {
        if i == n {
            assert(line_fault_error(ls, i, file, b[w]));
        }
    }
}

/// Under [`faults_reported`] for the whole script, each line that cannot be
/// read has its error among `e`.
pub proof fn lemma_faults_reported(ls: Seq<Seq<char>>, file: Option<String>, e: Seq<ParseError>, i: int)
    requires
        faults_reported(ls, ls.len() as int, file, e),
        refused_line(ls, i),
    ensures
        exists|k: int| 0 <= k < e.len() && line_fault_error(ls, i, file, #[trigger] e[k]),
{
    reveal(faults_reported);
}

/// The name a section header gives, without stray spaces.
pub open spec fn header_name(section: SectionParseResult) -> Seq<char> {
    trim(section.display_name@)
}

/// The identifier a section header gives: an implicit identifier follows
/// the name once its stray spaces are removed.
pub open spec fn header_id(section: SectionParseResult) -> Seq<char> {
    if trim(section.display_name@) != section.display_name@ && section.id_is_implicit {
        trim(section.display_name@)
    } else {
        section.id@
    }
}

/// The parent a section at `level` gets from the open sections `open`: the
/// start block at the root, the section open one level up, or none when the
/// line is deeper than the open sections allow.
pub open spec fn section_parent_at(open: Seq<BlockId>, level: int) -> Option<Option<BlockId>> {
    if level == 0 {
        Some(Some(0))
    } else if level <= open.len() {
        Some(Some(open[level - 1]))
    } else {
        None
    }
}

/// Whether `name` is recorded under `parent` in the table `t`.
pub open spec fn recorded(t: Seq<(Option<BlockId>, String, usize)>, parent: Option<BlockId>, name: Seq<char>) -> bool {
    exists|k: int| 0 <= k < t.len() && (#[trigger] t[k]).0 == parent && t[k].1@ == name
}

/// Whether `e` reports that `name` is already used under `parent` (first at
/// the line `t` records), found at `line` of `file` in `db`.
pub open spec fn duplicate_error(
    e: ParseError,
    t: Seq<(Option<BlockId>, String, usize)>,
    db: Database,
    parent: Option<BlockId>,
    name: Seq<char>,
    file: Option<String>,
    line: usize,
) -> bool {
    &&& e matches ParseError::DuplicateSectionName { name: n, parent_name: pn, file: f, line: l, previous_line: pl }
    &&& n@ == name && pn@ == parent_display(db, parent, 0) && f == file && l == line
    &&& exists|k: int| 0 <= k < t.len() && (#[trigger] t[k]).0 == parent && t[k].1@ == name && t[k].2 == pl
}

/// The title as the section header text `t` writes it (before stray spaces
/// are removed).
pub open spec fn header_display(t: Seq<char>) -> Seq<char> {
    let rest = header_title(t);
    if rest.contains(':') {
        title_parts(rest).1
    } else {
        raw_title(trim_start(t))
    }
}

/// The name that the section header text `t` gives (see [`header_name`]).
pub open spec fn header_line_name(t: Seq<char>) -> Seq<char> {
    trim(header_display(t))
}

/// The identifier that the section header text `t` gives (see
/// [`header_id`]).
pub open spec fn header_line_id(t: Seq<char>) -> Seq<char> {
    let rest = header_title(t);
    if rest.contains(':') {
        title_parts(rest).0
    } else {
        trim(header_display(t))
    }
}

/// Whether `name` is recorded under `parent` in the table of values `t`.
pub open spec fn recorded_view(t: Seq<(Option<BlockId>, Seq<char>, usize)>, parent: Option<BlockId>, name: Seq<char>) -> bool {
    exists|k: int| 0 <= k < t.len() && (#[trigger] t[k]).0 == parent && t[k].1 == name
}

/// Whether the section header text `t` at `level` is accepted, `open`
/// being the open sections and `names` and `ids` the names and identifiers
/// recorded so far: it has a title, a parent one level up, is no
/// sub-section at the root, and its name and identifier are new under that
/// parent.
pub open spec fn header_accepted(
    t: Seq<char>,
    level: int,
    open: Seq<BlockId>,
    names: Seq<(Option<BlockId>, Seq<char>, usize)>,
    ids: Seq<(Option<BlockId>, Seq<char>, usize)>,
) -> bool {
    &&& header_title(t).len() > 0
    &&& section_parent_at(open, level) matches Some(p)
    &&& !(hash_prefix_len(trim_start(t)) > 1 && p == Some(0usize))
    &&& !recorded_view(names, p, header_line_name(t))
    &&& !recorded_view(ids, p, header_line_id(t))
}

proof fn lemma_duplicate_view(
    e: ParseError,
    t: Seq<(Option<BlockId>, String, usize)>,
    db: Database,
    parent: Option<BlockId>,
    name: Seq<char>,
    file: Option<String>,
    line: usize,
)
    requires
        duplicate_error(e, t, db, parent, name, file, line),
    ensures
        duplicate_reported(e, table_views(t), parent_display(db, parent, 0), parent, name, file, line),
{
    let pl = e->DuplicateSectionName_previous_line;
    let k = choose|k: int| 0 <= k < t.len() && (#[trigger] t[k]).0 == parent && t[k].1@ == name && t[k].2 == pl;
    assert(table_views(t)[k] == (parent, name, pl));
}

proof fn lemma_recorded_view(t: Seq<(Option<BlockId>, String, usize)>, parent: Option<BlockId>, name: Seq<char>)
    ensures
        recorded(t, parent, name) == recorded_view(table_views(t), parent, name),
{
    if recorded(t, parent, name) {
        let k = choose|k: int| 0 <= k < t.len() && (#[trigger] t[k]).0 == parent && t[k].1@ == name;
        assert(table_views(t)[k] == (t[k].0, t[k].1@, t[k].2));
    }
    if recorded_view(table_views(t), parent, name) {
        let k = choose|k: int| 0 <= k < table_views(t).len() && (#[trigger] table_views(t)[k]).0 == parent && table_views(t)[k].1 == name;
        assert(table_views(t)[k] == (t[k].0, t[k].1@, t[k].2));
    }
}

/// The name records (with `ids`, the identifier records) that the section
/// headers among the first `n` content lines `cl` of `ls` make: the parent
/// each hangs below, the name, and the line.
#[verifier::opaque]
pub open spec fn header_records(ls: Seq<Seq<char>>, cl: Seq<int>, n: int, ids: bool) -> Seq<(Option<BlockId>, Seq<char>, usize)>
    decreases n,
{
    if n <= 0 {
        seq![]
    } else {
        let prev = header_records(ls, cl, n - 1, ids);
        let line = ls[cl[n - 1]];
        let t = content_text(line, line_level(line) as usize);
        if line_block(t) is Section {
            prev.push((
                Some(line_parent(stacks_after(ls, cl, n - 1), LineBlock::Section, line_level(line) as int)),
                if ids { header_line_id(t) } else { header_line_name(t) },
                (cl[n - 1] + 1) as usize,
            ))
        } else {
            prev
        }
    }
}

/// While a variables block is open, no content line has been read.
proof fn lemma_scan_block_first(ls: Seq<Seq<char>>, k: int)
    ensures
        scan_lines(ls, k).in_variables ==> !scan_lines(ls, k).saw_content,
        scan_lines(ls, k).contents.len() > 0 ==> scan_lines(ls, k).saw_content,
    decreases k,
{
    if k > 0 {
        lemma_scan_block_first(ls, k - 1);
    }
}

/// Whether each `set` and `require` line among the content lines `cl` of
/// `ls` made the statement it reads as against the variables of `db` (see
/// [`set_line`] and [`require_line`]).
#[verifier::opaque]
pub open spec fn statements_follow(db: Database, ls: Seq<Seq<char>>, cl: Seq<int>) -> bool {
    forall|j: int|
        #![trigger db.blocks@[j + 1]]
        0 <= j < cl.len() ==> {
            let t = content_text(ls[cl[j]], line_level(ls[cl[j]]) as usize);
            &&& line_block(t) is Assignment ==> (set_line(t, db.variables@) matches SetLine::Assign(id, v)
                && db.blocks@[j + 1].block_type == BlockType::SetVariable { variable_id: id, value: Value::Integer(v) })
            &&& line_block(t) is Requirement ==> (require_line(t, db.variables@) matches RequireLine::Require(id, op, v)
                && db.blocks@[j + 1].block_type == BlockType::RequireVariable {
                variable_id: id,
                operator: op,
                value: Value::Integer(v),
            })
        }
}

proof fn lemma_statements_empty(db: Database, ls: Seq<Seq<char>>, cl: Seq<int>)
    requires
        cl.len() == 0,
    ensures
        statements_follow(db, ls, cl),
{
    reveal(statements_follow);
}

proof fn lemma_statements_kept(old_db: Database, new_db: Database, ls: Seq<Seq<char>>, cl: Seq<int>)
    requires
        statements_follow(old_db, ls, cl),
        old_db.blocks@.len() >= cl.len() + 1,
        new_db.blocks@.len() >= old_db.blocks@.len(),
        new_db.variables == old_db.variables,
        forall|j: int| 0 <= j < old_db.blocks@.len() && !(old_db.blocks@[j].block_type is GoTo)
            ==> (#[trigger] new_db.blocks@[j]).block_type == old_db.blocks@[j].block_type,
    ensures
        statements_follow(new_db, ls, cl),
{
    reveal(statements_follow);
    assert forall|j: int| 0 <= j < cl.len() implies {
        let t = content_text(ls[cl[j]], line_level(ls[cl[j]]) as usize);
        &&& line_block(t) is Assignment ==> (set_line(t, new_db.variables@) matches SetLine::Assign(id, v)
            && (#[trigger] new_db.blocks@[j + 1]).block_type == BlockType::SetVariable { variable_id: id, value: Value::Integer(v) })
        &&& line_block(t) is Requirement ==> (require_line(t, new_db.variables@) matches RequireLine::Require(id, op, v)
            && new_db.blocks@[j + 1].block_type == BlockType::RequireVariable { variable_id: id, operator: op, value: Value::Integer(v) })
    } by {
        assert(old_db.blocks@[j + 1] == old_db.blocks@[j + 1]);
    }
}

proof fn lemma_statements_step(old_db: Database, new_db: Database, ls: Seq<Seq<char>>, c: Seq<int>, x: int, level: int)
    requires
        statements_follow(old_db, ls, c),
        keeps_blocks(old_db, new_db),
        new_db.variables == old_db.variables,
        old_db.blocks@.len() == c.len() + 1,
        level == line_level(ls[x]),
        line_block(content_text(ls[x], level as usize)) is Assignment ==> (set_line(content_text(ls[x], level as usize),
            old_db.variables@) matches SetLine::Assign(id, v) && new_db.blocks@[old_db.blocks@.len() as int].block_type
            == BlockType::SetVariable { variable_id: id, value: Value::Integer(v) }),
        line_block(content_text(ls[x], level as usize)) is Requirement ==> (require_line(content_text(ls[x], level as usize),
            old_db.variables@) matches RequireLine::Require(id, op, v) && new_db.blocks@[old_db.blocks@.len() as int].block_type
            == BlockType::RequireVariable { variable_id: id, operator: op, value: Value::Integer(v) }),
    ensures
        statements_follow(new_db, ls, c.push(x)),
{
    lemma_statements_kept(old_db, new_db, ls, c);
    reveal(statements_follow);
    let c2 = c.push(x);
    assert forall|j: int| 0 <= j < c2.len() implies {
        let t = content_text(ls[c2[j]], line_level(ls[c2[j]]) as usize);
        &&& line_block(t) is Assignment ==> (set_line(t, new_db.variables@) matches SetLine::Assign(id, v)
            && (#[trigger] new_db.blocks@[j + 1]).block_type == BlockType::SetVariable { variable_id: id, value: Value::Integer(v) })
        &&& line_block(t) is Requirement ==> (require_line(t, new_db.variables@) matches RequireLine::Require(id, op, v)
            && new_db.blocks@[j + 1].block_type == BlockType::RequireVariable { variable_id: id, operator: op, value: Value::Integer(v) })
    } by {
        if j < c.len() {
            assert(c2[j] == c[j]);
        } else {
            assert(c2[j] == x);
        }
    }
}

/// The names that the definition lines `defs` of `ls` declare, in order.
pub open spec fn declared_names(ls: Seq<Seq<char>>, defs: Seq<int>) -> Seq<Seq<char>> {
    defs.map_values(|j: int| int_definition(trim(ls[j]))->Some_0.0)
}

/// The names that a list of names already read holds, in order.
pub open spec fn seen_names(seen: Seq<(String, usize)>) -> Seq<Seq<char>> {
    seen.map_values(|e: (String, usize)| e.0@)
}

/// Whether the `set` line `t` assigns an integer to one of the declared
/// `names` (see [`set_line`]).
pub open spec fn set_ok(t: Seq<char>, names: Seq<Seq<char>>) -> bool {
    let rest = trim(t.skip(3));
    &&& rest.len() > 0
    &&& first_index(rest, '=') matches Some(i)
    &&& trim(rest.take(i)).len() > 0
    &&& names.contains(trim(rest.take(i)))
    &&& i64_text_value(trim(rest.skip(i + 1))) is Some
}

/// Whether the `require` line `t` compares one of the declared `names`
/// with an integer (see [`require_line`]).
pub open spec fn require_ok(t: Seq<char>, names: Seq<Seq<char>>) -> bool {
    let rest = trim(t.skip(7));
    let parts = words_from(rest, 0);
    &&& rest.len() > 0
    &&& parts.len() == 3
    &&& names.contains(parts[0])
    &&& require_operator(parts[1]) is Some
    &&& i64_text_value(parts[2]) is Some
}

proof fn lemma_declared_seen(seen: Seq<(String, usize)>, name: Seq<char>)
    ensures
        declared(seen, name) == seen_names(seen).contains(name),
{
    if declared(seen, name) {
        let k = choose|k: int| 0 <= k < seen.len() && (#[trigger] seen[k]).0@ == name;
        assert(seen_names(seen)[k] == name);
    }
    if seen_names(seen).contains(name) {
        let k = choose|k: int| 0 <= k < seen_names(seen).len() && seen_names(seen)[k] == name;
        assert(seen[k].0@ == name);
    }
}

/// The declared variables carry the declared names.
proof fn lemma_names_of_vars(db: Database, ls: Seq<Seq<char>>, defs: Seq<int>, name: Seq<char>)
    requires
        variables_follow(db, ls, defs),
        declared_names(ls, defs).contains(name),
    ensures
        first_variable_named(db.variables@, name) is Some,
{
    let k = choose|k: int| 0 <= k < declared_names(ls, defs).len() && declared_names(ls, defs)[k] == name;
    assert(int_definition(trim(ls[defs[k]])) == Some((db.variables@[k].name@, db.variables@[k].default->Integer_0)));
    assert(db.variables@[k].name@ == name);
    crate::database::lemma_first_match_exists(db.variables@, name, k);
}

/// A `set` line that assigns an integer to a declared name reads as an
/// assignment.
proof fn lemma_set_ok(t: Seq<char>, db: Database, ls: Seq<Seq<char>>, defs: Seq<int>)
    requires
        variables_follow(db, ls, defs),
        is_statement(t, "set"@),
        set_ok(t, declared_names(ls, defs)),
    ensures
        set_line(t, db.variables@) is Assign,
{
    let rest = trim(t.skip(3));
    let i = first_index(rest, '=')->Some_0;
    lemma_names_of_vars(db, ls, defs, trim(rest.take(i)));
}

/// A `require` line that compares a declared name with an integer reads as
/// a requirement.
proof fn lemma_require_ok(t: Seq<char>, db: Database, ls: Seq<Seq<char>>, defs: Seq<int>)
    requires
        variables_follow(db, ls, defs),
        is_statement(t, "require"@),
        require_ok(t, declared_names(ls, defs)),
    ensures
        require_line(t, db.variables@) is Require,
{
    let rest = trim(t.skip(7));
    lemma_names_of_vars(db, ls, defs, words_from(rest, 0)[0]);
}

/// Whether block `b` of `db` is a section named as the header text `t`
/// says: its name, its identifier, and whether it has an identifier of its
/// own (an explicit `id:`).
pub open spec fn section_named(db: Database, b: int, t: Seq<char>) -> bool {
    &&& db.blocks@[b].block_type matches BlockType::Section(sid)
    &&& sid < db.sections@.len()
    &&& db.sections@[sid as int].name < db.strings@.len()
    &&& db.sections@[sid as int].id < db.strings@.len()
    &&& db.strings@[db.sections@[sid as int].name as int]@ == header_line_name(t)
    &&& db.strings@[db.sections@[sid as int].id as int]@ == header_line_id(t)
    &&& (db.sections@[sid as int].id == db.sections@[sid as int].name) == !header_title(t).contains(':')
}

/// Whether each section made from a header among the content lines `cl` of
/// `ls` is named as its header says.
#[verifier::opaque]
pub open spec fn section_names_follow(db: Database, ls: Seq<Seq<char>>, cl: Seq<int>) -> bool {
    forall|j: int| 0 <= j < cl.len() && #[trigger] line_kind(ls, cl, j) is Section ==> section_named(
        db,
        j + 1,
        content_text(ls[cl[j]], line_level(ls[cl[j]]) as usize),
    )
}

proof fn lemma_names_follow_start(db: Database, ls: Seq<Seq<char>>, cl: Seq<int>)
    requires
        cl.len() == 0,
    ensures
        section_names_follow(db, ls, cl),
{
    reveal(section_names_follow);
}

proof fn lemma_names_follow_kept(old_db: Database, new_db: Database, ls: Seq<Seq<char>>, cl: Seq<int>)
    requires
        section_names_follow(old_db, ls, cl),
        keeps_blocks(old_db, new_db),
        old_db.blocks@.len() >= cl.len() + 1,
    ensures
        section_names_follow(new_db, ls, cl),
{
    reveal(section_names_follow);
    assert forall|j: int| 0 <= j < cl.len() && #[trigger] line_kind(ls, cl, j) is Section implies section_named(
        new_db, j + 1, content_text(ls[cl[j]], line_level(ls[cl[j]]) as usize)) by {
        assert(section_named(old_db, j + 1, content_text(ls[cl[j]], line_level(ls[cl[j]]) as usize)));
        assert(new_db.blocks@[j + 1].block_type == old_db.blocks@[j + 1].block_type);
        let sid = old_db.blocks@[j + 1].block_type->Section_0;
        assert(new_db.sections@[sid as int] == old_db.sections@[sid as int]);
        let sec = old_db.sections@[sid as int];
        assert(new_db.strings@[sec.name as int] == old_db.strings@[sec.name as int]);
        assert(new_db.strings@[sec.id as int] == old_db.strings@[sec.id as int]);
    }
}

proof fn lemma_names_follow_step(old_db: Database, new_db: Database, ls: Seq<Seq<char>>, c: Seq<int>, x: int, level: int)
    requires
        section_names_follow(old_db, ls, c),
        keeps_blocks(old_db, new_db),
        old_db.blocks@.len() == c.len() + 1,
        level == line_level(ls[x]),
        line_block(content_text(ls[x], level as usize)) is Section ==> section_named(new_db, old_db.blocks@.len() as int,
            content_text(ls[x], level as usize)),
    ensures
        section_names_follow(new_db, ls, c.push(x)),
{
    lemma_names_follow_kept(old_db, new_db, ls, c);
    reveal(section_names_follow);
    let c2 = c.push(x);
    assert forall|j: int| 0 <= j < c2.len() && #[trigger] line_kind(ls, c2, j) is Section implies section_named(
        new_db, j + 1, content_text(ls[c2[j]], line_level(ls[c2[j]]) as usize)) by {
        if j < c.len() {
            assert(c2[j] == c[j]);
            assert(line_kind(ls, c, j) is Section);
        } else {
            assert(c2[j] == x);
        }
    }
}

/// Whether each section header among the content lines `cl` of `ls` is no
/// deeper than one level below the sections open before it.
#[verifier::opaque]
pub open spec fn sections_fit(ls: Seq<Seq<char>>, cl: Seq<int>) -> bool {
    forall|j: int| 0 <= j < cl.len() && #[trigger] line_kind(ls, cl, j) is Section ==> line_level(ls[cl[j]]) <= stacks_after(ls, cl, j).sections.len()
}

proof fn lemma_fit_start(ls: Seq<Seq<char>>, cl: Seq<int>)
    requires
        cl.len() == 0,
    ensures
        sections_fit(ls, cl),
{
    reveal(sections_fit);
}

proof fn lemma_fit_step(ls: Seq<Seq<char>>, c: Seq<int>, x: int, level: int)
    requires
        sections_fit(ls, c),
        level == line_level(ls[x]),
        line_block(content_text(ls[x], level as usize)) is Section ==> level <= stacks_after(ls, c, c.len() as int).sections.len(),
    ensures
        sections_fit(ls, c.push(x)),
{
    reveal(sections_fit);
    let c2 = c.push(x);
    assert forall|j: int| 0 <= j < c2.len() && #[trigger] line_kind(ls, c2, j) is Section implies line_level(ls[c2[j]])
        <= stacks_after(ls, c2, j).sections.len() by {
        lemma_stacks_prefix(ls, c, x, j);
        if j < c.len() {
            assert(c2[j] == c[j]);
            assert(line_kind(ls, c, j) is Section);
        } else {
            assert(c2[j] == x);
        }
    }
}

/// The last section block among blocks `1 .. b` of `db` at `level`, or the
/// start block when there is none.
pub open spec fn last_section_before(db: Database, b: int, level: int) -> BlockId
    decreases b,
{
    if b <= 1 {
        0
    } else if db.blocks@[b - 1].block_type is Section && db.blocks@[b - 1].level == level {
        (b - 1) as BlockId
    } else {
        last_section_before(db, b - 1, level)
    }
}

/// The last section line at `level` among the first `n` content lines, as
/// the block it makes, or the start block when there is none.
pub open spec fn last_section_line(ls: Seq<Seq<char>>, cl: Seq<int>, n: int, level: int) -> BlockId
    decreases n,
{
    if n <= 0 {
        0
    } else if line_kind(ls, cl, n - 1) is Section && line_level(ls[cl[n - 1]]) == level {
        n as BlockId
    } else {
        last_section_line(ls, cl, n - 1, level)
    }
}

/// The open sections after `n` content lines: at each level, the last
/// section line at that level.
proof fn lemma_open_sections(ls: Seq<Seq<char>>, cl: Seq<int>, n: int)
    requires
        0 <= n <= cl.len(),
        sections_fit(ls, cl),
    ensures
        stacks_after(ls, cl, n).sections.len() >= 1,
        forall|k: int| 0 <= k < stacks_after(ls, cl, n).sections.len() ==> #[trigger] stacks_after(ls, cl, n).sections[k]
            == last_section_line(ls, cl, n, k),
    decreases n,
{
    if n > 0 {
        lemma_open_sections(ls, cl, n - 1);
        reveal(sections_fit);
        let st = stacks_after(ls, cl, n - 1);
        let lv = line_level(ls[cl[n - 1]]);
        let st2 = stacks_after(ls, cl, n);
        if line_kind(ls, cl, n - 1) is Section {
            assert(line_kind(ls, cl, n - 1) is Section);
            assert(lv <= st.sections.len());
            assert forall|k: int| 0 <= k < st2.sections.len() implies #[trigger] st2.sections[k] == last_section_line(ls, cl, n, k) by {
                if k != lv {
                    assert(st2.sections[k] == st.sections[k]);
                }
            }
        } else {
            assert forall|k: int| 0 <= k < st2.sections.len() implies #[trigger] st2.sections[k] == last_section_line(ls, cl, n, k) by {
                assert(st2.sections[k] == st.sections[k]);
            }
        }
    }
}

proof fn lemma_last_section_blocks(db: Database, ls: Seq<Seq<char>>, cl: Seq<int>, n: int, level: int)
    requires
        0 <= n <= cl.len(),
        blocks_follow(db, ls, cl),
    ensures
        last_section_line(ls, cl, n, level) == last_section_before(db, n + 1, level),
    decreases n,
{
    if n > 0 {
        lemma_last_section_blocks(db, ls, cl, n - 1, level);
        let j = n - 1;
        assert(db.blocks@[j + 1].line == cl[j] + 1);
    }
}

/// Below a section at the root hangs the start block; below a section at
/// level `L > 0` hangs the last section at level `L - 1` before it (the
/// start block when there is none, which a section one level deep without
/// a section at the root before it gets).
pub proof fn lemma_section_parent(db: Database, ls: Seq<Seq<char>>, cl: Seq<int>, b: int)
    requires
        blocks_follow(db, ls, cl),
        parents_follow(db, ls, cl),
        sections_fit(ls, cl),
        1 <= b <= cl.len(),
        db.blocks@[b].block_type is Section,
    ensures
        db.blocks@[b].parent_id == Some(if db.blocks@[b].level == 0 {
            0usize
        } else {
            last_section_before(db, b, db.blocks@[b].level - 1)
        }),
{
    let j = b - 1;
    assert(db.blocks@[j + 1].line == cl[j] + 1);
    let lv = db.blocks@[b].level as int;
    assert(line_level(ls[cl[j]]) == lv);
    assert(line_kind(ls, cl, j) is Section);
    assert(db.blocks@[j + 1].parent_id == Some(expected_parent(ls, cl, j)));
    if lv > 0 {
        reveal(sections_fit);
        assert(lv <= stacks_after(ls, cl, j).sections.len());
        lemma_open_sections(ls, cl, j);
        assert(stacks_after(ls, cl, j).sections[lv - 1] == last_section_line(ls, cl, j, lv - 1));
        lemma_last_section_blocks(db, ls, cl, j, lv - 1);
    }
}

/// The last section line found is a section header at that level (or the
/// start block when there is none).
proof fn lemma_last_section_line_is(ls: Seq<Seq<char>>, cl: Seq<int>, n: int, k: int)
    requires
        n <= usize::MAX,
    ensures
        last_section_line(ls, cl, n, k) == 0 || ({
            let r = last_section_line(ls, cl, n, k) as int;
            &&& 1 <= r <= n
            &&& line_kind(ls, cl, r - 1) is Section
        }),
    decreases n,
{
    if n > 0 {
        lemma_last_section_line_is(ls, cl, n - 1, k);
    }
}

/// How an error names the parent of a section: `<root>` for the start
/// block, else the title of the header that made the parent.
pub open spec fn parent_title(ls: Seq<Seq<char>>, cl: Seq<int>, p: Option<BlockId>) -> Seq<char> {
    match p {
        Some(q) => if q == 0 {
            "<root>"@
        } else {
            header_line_name(content_text(ls[cl[q - 1]], line_level(ls[cl[q - 1]]) as usize))
        },
        None => "<root>"@,
    }
}

/// The name an error gives the parent a section header at `level` gets is
/// the title of the header that made that parent.
proof fn lemma_parent_title(db: Database, ls: Seq<Seq<char>>, c: Seq<int>, level: int)
    requires
        section_names_follow(db, ls, c),
        sections_fit(ls, c),
        c.len() <= usize::MAX,
        0 <= level,
        section_parent_at(stacks_after(ls, c, c.len() as int).sections, level) is Some,
    ensures
        parent_display(db, section_parent_at(stacks_after(ls, c, c.len() as int).sections, level)->Some_0, 0)
            == parent_title(ls, c, section_parent_at(stacks_after(ls, c, c.len() as int).sections, level)->Some_0),
{
    if level > 0 {
        let open = stacks_after(ls, c, c.len() as int).sections;
        lemma_open_sections(ls, c, c.len() as int);
        assert(open[level - 1] == last_section_line(ls, c, c.len() as int, level - 1));
        lemma_last_section_line_is(ls, c, c.len() as int, level - 1);
        let r = open[level - 1] as int;
        if r != 0 {
            reveal(section_names_follow);
            assert(line_kind(ls, c, r - 1) is Section);
            assert(section_named(db, r, content_text(ls[c[r - 1]], line_level(ls[c[r - 1]]) as usize)));
        }
    }
}

/// Whether line `i` of `ls` cannot be read for reasons of its own: it is
/// refused (see [`refused_line`]), or it is a section header with a title
/// that [`header_accepted`] does not take.
#[verifier::opaque]
pub open spec fn fault_line(ls: Seq<Seq<char>>, i: int) -> bool {
    let sc = scan_lines(ls, i);
    let c = sc.contents;
    let st = stacks_after(ls, c, c.len() as int);
    let l = line_level(ls[i]);
    let t = content_text(ls[i], l as usize);
    ||| refused_line(ls, i)
    ||| {
        &&& 0 <= i < ls.len()
        &&& !sc.in_variables
        &&& !is_quiet_line(ls[i])
        &&& trim(ls[i]) != "--- variables"@
        &&& indentation(ls[i]) is Level
        &&& line_block(t) is Section
        &&& !malformed_text(t)
        &&& !header_accepted(t, l, st.sections, header_records(ls, c, c.len() as int, false), header_records(ls, c, c.len() as int, true))
    }
}

/// Whether `e` is the error line `i` of `ls` gets when it cannot be read for
/// reasons of its own (see [`fault_line`]), in `file`.
#[verifier::opaque]
pub open spec fn fault_of(ls: Seq<Seq<char>>, i: int, file: Option<String>, e: ParseError) -> bool {
    let c = scan_lines(ls, i).contents;
    let st = stacks_after(ls, c, c.len() as int);
    let l = line_level(ls[i]);
    let t = content_text(ls[i], l as usize);
    if refused_line(ls, i) {
        line_fault_error(ls, i, file, e)
    } else {
        header_fault(
            t,
            l,
            ls[i].skip(2 * l),
            st.sections,
            header_records(ls, c, c.len() as int, false),
            header_records(ls, c, c.len() as int, true),
            parent_title(ls, c, section_parent_at(st.sections, l)->Some_0),
            file,
            (i + 1) as usize,
            e,
        )
    }
}

/// Whether one of the first `n` content lines `cl` of `ls`, other than an
/// option, hangs below block `b`.
pub open spec fn non_option_child_before(ls: Seq<Seq<char>>, cl: Seq<int>, n: int, b: BlockId) -> bool {
    exists|j: int| 0 <= j < n && !(line_kind(ls, cl, j) is Option) && #[trigger] expected_parent(ls, cl, j) == b
}

/// Whether the blocks `seen` are those below which a content line of `cl`
/// other than an option hangs.
#[verifier::opaque]
pub open spec fn seen_follows(seen: Seq<BlockId>, ls: Seq<Seq<char>>, cl: Seq<int>) -> bool {
    forall|b: BlockId| #[trigger] seen.contains(b) <==> non_option_child_before(ls, cl, cl.len() as int, b)
}

/// Whether block `p`, made from content line `cl[p - 1]`, can hold
/// options: it is a line of text or an option.
pub open spec fn holds_options(ls: Seq<Seq<char>>, cl: Seq<int>, p: int) -> bool {
    1 <= p <= cl.len() && (line_kind(ls, cl, p - 1) is Text || line_kind(ls, cl, p - 1) is Option)
}

proof fn lemma_seen_start(seen: Seq<BlockId>, ls: Seq<Seq<char>>, cl: Seq<int>)
    requires
        seen.len() == 0,
        cl.len() == 0,
    ensures
        seen_follows(seen, ls, cl),
{
    reveal(seen_follows);
}

proof fn lemma_seen_not(seen: Seq<BlockId>, ls: Seq<Seq<char>>, cl: Seq<int>, p: BlockId)
    requires
        seen_follows(seen, ls, cl),
        !non_option_child_before(ls, cl, cl.len() as int, p),
    ensures
        !seen.contains(p),
{
    reveal(seen_follows);
}

proof fn lemma_seen_step(
    ls: Seq<Seq<char>>,
    c: Seq<int>,
    x: int,
    before: Seq<BlockId>,
    after: Seq<BlockId>,
    st: Stacks,
    level: int,
)
    requires
        seen_follows(before, ls, c),
        st == stacks_after(ls, c, c.len() as int),
        level == line_level(ls[x]),
        line_block(content_text(ls[x], level as usize)) is Option ==> after == before,
        !(line_block(content_text(ls[x], level as usize)) is Option) ==> forall|b: BlockId| #[trigger] after.contains(b)
            <==> (before.contains(b) || b == line_parent(st, line_block(content_text(ls[x], level as usize)), level)),
    ensures
        seen_follows(after, ls, c.push(x)),
{
    reveal(seen_follows);
    let c2 = c.push(x);
    let n = c.len() as int;
    assert forall|j: int| 0 <= j < n implies line_kind(ls, c2, j) == line_kind(ls, c, j) && expected_parent(ls, c2, j) == expected_parent(ls, c, j) by {
        assert(c2[j] == c[j]);
        lemma_stacks_prefix(ls, c, x, j);
    }
    assert(c2[n] == x);
    lemma_stacks_prefix(ls, c, x, n);
    assert(expected_parent(ls, c2, n) == line_parent(st, line_block(content_text(ls[x], level as usize)), level));
    assert forall|b: BlockId| #[trigger] after.contains(b) <==> non_option_child_before(ls, c2, c2.len() as int, b) by {
        if non_option_child_before(ls, c2, c2.len() as int, b) {
            let j = choose|j: int| 0 <= j < c2.len() && !(line_kind(ls, c2, j) is Option) && #[trigger] expected_parent(ls, c2, j) == b;
            if j < n {
                assert(non_option_child_before(ls, c, n, b));
            }
        }
        if non_option_child_before(ls, c, n, b) {
            let j = choose|j: int| 0 <= j < n && !(line_kind(ls, c, j) is Option) && #[trigger] expected_parent(ls, c, j) == b;
            assert(expected_parent(ls, c2, j) == b);
        }
    }
}

/// A block that can hold options is a line of text or an option.
proof fn lemma_parent_holds(db: Database, ls: Seq<Seq<char>>, c: Seq<int>, p: int)
    requires
        blocks_follow(db, ls, c),
        holds_options(ls, c, p),
    ensures
        db.blocks@[p].block_type is String || db.blocks@[p].block_type is Option,
{
    let j = p - 1;
    assert(db.blocks@[j + 1].line == c[j] + 1);
}

/// Whether line `i` of `ls` is read without a problem, the lines before it
/// having been read: within a variables block, the closing `---`, a blank
/// or comment line, or an `int` definition of a name not declared yet; the
/// header that opens the block at the top; otherwise a blank or comment
/// line, a line of text, a well-formed jump, or a `set` or `require`
/// statement over declared variables within the open levels, a section
/// header that [`header_accepted`] takes, or an option within the open
/// levels below a line of text or an option that holds nothing but options
/// so far.
#[verifier::opaque]
pub open spec fn readable_line(ls: Seq<Seq<char>>, i: int) -> bool {
    let sc = scan_lines(ls, i);
    let c = sc.contents;
    let st = stacks_after(ls, c, c.len() as int);
    let names = declared_names(ls, sc.definitions);
    if sc.in_variables {
        ||| trim(ls[i]) == "---"@
        ||| !(trim(ls[i]).len() > 0 && !is_comment_line(ls[i]))
        ||| int_definition(trim(ls[i])) matches Some(d) && !names.contains(d.0)
    } else if !sc.variables_started && !sc.saw_content && trim(ls[i]) == "--- variables"@ {
        true
    } else {
    &&& trim(ls[i]) != "--- variables"@
    &&& is_quiet_line(ls[i]) || match indentation(ls[i]) {
        Indentation::Level(l) => {
            let t = content_text(ls[i], l as usize);
            ||| (line_block(t) is Text || line_block(t) is Jump && !malformed_text(t)
                || line_block(t) is Assignment && set_ok(t, names) || line_block(t) is Requirement && require_ok(t, names))
                && stack_admits(l as int, st.blocks.len() as int, st.sections.len() as int)
            ||| line_block(t) is Section && header_accepted(t, l as int, st.sections,
                header_records(ls, c, c.len() as int, false), header_records(ls, c, c.len() as int, true))
            ||| line_block(t) is Option && l > 0 && stack_admits(l as int, st.blocks.len() as int, st.sections.len() as int) && ({
                let p = line_parent(st, LineBlock::Option(seq![]), l as int);
                holds_options(ls, c, p as int) && !non_option_child_before(ls, c, c.len() as int, p)
            })
        },
        _ => false,
    }
    }
}

/// Whether every line of `ls` is read without a problem (see
/// [`readable_line`]) and a variables block, if any, is closed.
pub open spec fn story_script(ls: Seq<Seq<char>>) -> bool {
    &&& story_prefix(ls, ls.len() as int)
    &&& !scan_lines(ls, ls.len() as int).in_variables
}

/// Whether each of the first `k` lines of `ls` is read without a problem
/// (see [`readable_line`]).
pub open spec fn story_prefix(ls: Seq<Seq<char>>, k: int) -> bool {
    forall|i: int| 0 <= i < k ==> #[trigger] readable_line(ls, i)
}

/// Whether `db0` is a database that reading the lines `ls` (with content
/// lines `cl`) builds before the final validation, `paths` the jump
/// targets written, and `db` that database once the section registry is
/// built and the jumps are resolved.
pub open spec fn read_for_validation(
    ls: Seq<Seq<char>>,
    cl: Seq<int>,
    db0: Database,
    db: Database,
    paths: Seq<(BlockId, String)>,
) -> bool {
    &&& db0.blocks@.len() == cl.len() + 2
    &&& db0.tree_wf()
    &&& blocks_follow(db0, ls, cl)
    &&& parents_follow(db0, ls, cl)
    &&& jumps_recorded(db0, ls, cl, paths)
    &&& section_names_follow(db0, ls, cl)
    &&& same_skeleton(db, db0)
    &&& forall|j: int| 0 <= j < db.blocks@.len() ==> (#[trigger] db.blocks@[j]).line == db0.blocks@[j].line
    &&& registry_views(db.section_registry@) == registry_upto(db, db.blocks@.len() as int)
}

/// Whether `errs` are the errors that validating what reading `ls` (with
/// content lines `cl`) built reports, in `file`: for some database `db0`
/// that reading builds and its resolved form `db` (see
/// [`read_for_validation`]), `errs` is exactly what
/// [`validation_reported`] says.
#[verifier::opaque]
pub open spec fn validated_as(ls: Seq<Seq<char>>, cl: Seq<int>, errs: Seq<ParseError>, file: Option<String>) -> bool {
    exists|db0: Database, db: Database, paths: Seq<(BlockId, String)>|
        #[trigger] read_for_validation(ls, cl, db0, db, paths) && validation_reported(seq![], errs, db0, db, paths, file)
}

proof fn lemma_validated_as(
    ls: Seq<Seq<char>>,
    cl: Seq<int>,
    errs: Seq<ParseError>,
    file: Option<String>,
    db0: Database,
    db: Database,
    paths: Seq<(BlockId, String)>,
)
    requires
        read_for_validation(ls, cl, db0, db, paths),
        validation_reported(seq![], errs, db0, db, paths, file),
    ensures
        validated_as(ls, cl, errs, file),
{
    reveal(validated_as);
}

/// The warnings (message, line) that reading the content text `t` of the
/// line numbered `line` gives: a section title or a jump target with stray
/// spaces.
pub open spec fn line_warnings(t: Seq<char>, line: usize) -> Seq<(Seq<char>, usize)> {
    match line_block(t) {
        LineBlock::Section => if trim(header_display(t)) != header_display(t) {
            seq![(whitespace_warning(header_display(t), trim(header_display(t))), line)]
        } else {
            seq![]
        },
        LineBlock::Jump => {
            let p = trim_start(t).skip(3);
            if trim(p) != p {
                seq![(whitespace_warning(p, trim(p)), line)]
            } else {
                seq![]
            }
        },
        _ => seq![],
    }
}

/// The warnings that reading the first `n` content lines `cl` of `ls` gives.
#[verifier::opaque]
pub open spec fn reading_warnings(ls: Seq<Seq<char>>, cl: Seq<int>, n: int) -> Seq<(Seq<char>, usize)>
    decreases n,
{
    if n <= 0 {
        seq![]
    } else {
        let line = ls[cl[n - 1]];
        reading_warnings(ls, cl, n - 1) + line_warnings(content_text(line, line_level(line) as usize), (cl[n - 1] + 1) as usize)
    }
}

/// Whether `after` is `before` followed by one warning of `file` for each
/// of `items` (message, line), in order.
pub open spec fn warns_items(before: Seq<Warning>, after: Seq<Warning>, file: Option<String>, items: Seq<(Seq<char>, usize)>) -> bool {
    &&& after.len() == before.len() + items.len()
    &&& after.subrange(0, before.len() as int) == before
    &&& forall|k: int| before.len() <= k < after.len() ==> {
        &&& (#[trigger] after[k]).message@ == items[k - before.len()].0
        &&& after[k].file == file
        &&& after[k].line == items[k - before.len()].1
    }
}

proof fn lemma_items_none(w: Seq<Warning>, file: Option<String>)
    ensures
        warns_items(w, w, file, seq![]),
{
    assert(w.subrange(0, w.len() as int) =~= w);
}

proof fn lemma_items_one(before: Seq<Warning>, after: Seq<Warning>, file: Option<String>, item: (Seq<char>, usize))
    requires
        after.len() == before.len() + 1,
        after.drop_last() == before,
        after.last().message@ == item.0,
        after.last().file == file,
        after.last().line == item.1,
    ensures
        warns_items(before, after, file, seq![item]),
{
    assert(after.subrange(0, before.len() as int) =~= after.drop_last());
}

proof fn lemma_items_chain(a: Seq<Warning>, b: Seq<Warning>, c: Seq<Warning>, file: Option<String>, l1: Seq<(Seq<char>, usize)>, l2: Seq<(Seq<char>, usize)>)
    requires
        warns_items(a, b, file, l1),
        warns_items(b, c, file, l2),
    ensures
        warns_items(a, c, file, l1 + l2),
{
    assert forall|k: int| a.len() <= k < c.len() implies {
        &&& (#[trigger] c[k]).message@ == (l1 + l2)[k - a.len()].0
        &&& c[k].file == file
        &&& c[k].line == (l1 + l2)[k - a.len()].1
    } by {
        if k < b.len() {
            assert(c.subrange(0, b.len() as int)[k] == c[k]);
            assert(b[k] == c[k]);
        } else {
            assert((l1 + l2)[k - a.len()] == l2[k - b.len()]);
        }
    }
    assert(c.subrange(0, a.len() as int) =~= a) by {
        assert forall|k: int| 0 <= k < a.len() implies c[k] == a[k] by {
            assert(c.subrange(0, b.len() as int)[k] == c[k]);
            assert(b.subrange(0, a.len() as int)[k] == b[k]);
        }
    }
}

proof fn lemma_reading_warnings_step(ls: Seq<Seq<char>>, c: Seq<int>, x: int)
    ensures
        reading_warnings(ls, c.push(x), (c.len() + 1) as int) == reading_warnings(ls, c, c.len() as int) + line_warnings(
            content_text(ls[x], line_level(ls[x]) as usize),
            (x + 1) as usize,
        ),
{
    lemma_reading_warnings_prefix(ls, c, x, c.len() as int);
    reveal(reading_warnings);
    assert(c.push(x)[c.len() as int] == x);
}

proof fn lemma_reading_warnings_prefix(ls: Seq<Seq<char>>, c: Seq<int>, x: int, n: int)
    requires
        0 <= n <= c.len(),
    ensures
        reading_warnings(ls, c.push(x), n) == reading_warnings(ls, c, n),
    decreases n,
{
    reveal(reading_warnings);
    if n > 0 {
        lemma_reading_warnings_prefix(ls, c, x, n - 1);
        assert(c.push(x)[n - 1] == c[n - 1]);
    }
}

proof fn lemma_reading_warnings_start(ls: Seq<Seq<char>>, c: Seq<int>)
    ensures
        reading_warnings(ls, c, 0) == Seq::<(Seq<char>, usize)>::empty(),
{
    reveal(reading_warnings);
}

/// Whether `w` are the warnings that reading `ls` (with content lines
/// `cl`) gives, in `file`, when it is read: first those of the lines (see
/// [`reading_warnings`]), then the unreachable-code warnings of the jumps
/// of the database read from it (see [`jump_warning_lines`]).
#[verifier::opaque]
pub open spec fn warned_as(ls: Seq<Seq<char>>, cl: Seq<int>, w: Seq<Warning>, file: Option<String>) -> bool {
    exists|db0: Database, db: Database, paths: Seq<(BlockId, String)>, before: Seq<Warning>|
        #![trigger read_for_validation(ls, cl, db0, db, paths), warns_items(seq![], before, file, reading_warnings(ls, cl, cl.len() as int))]
        read_for_validation(ls, cl, db0, db, paths)
        && warns_items(seq![], before, file, reading_warnings(ls, cl, cl.len() as int))
        && warns_unreachable(before, w, file, jump_warning_lines(db0, db0.blocks@.len() as int))
}

proof fn lemma_warned_as(
    ls: Seq<Seq<char>>,
    cl: Seq<int>,
    w: Seq<Warning>,
    file: Option<String>,
    db0: Database,
    db: Database,
    paths: Seq<(BlockId, String)>,
    before: Seq<Warning>,
)
    requires
        read_for_validation(ls, cl, db0, db, paths),
        warns_items(seq![], before, file, reading_warnings(ls, cl, cl.len() as int)),
        warns_unreachable(before, w, file, jump_warning_lines(db0, db0.blocks@.len() as int)),
    ensures
        warned_as(ls, cl, w, file),
{
    reveal(warned_as);
}

/// An error that only the final validation reports: an invalid section
/// name, an empty section, or a jump without a target.
pub open spec fn validation_error(e: ParseError) -> bool {
    e is InvalidSectionName || e is EmptySection || e is SectionNotFound || e is NavigationAboveRoot
}

proof fn lemma_records_prefix(ls: Seq<Seq<char>>, c: Seq<int>, x: int, n: int, ids: bool)
    requires
        0 <= n <= c.len(),
    ensures
        header_records(ls, c.push(x), n, ids) == header_records(ls, c, n, ids),
    decreases n,
{
    reveal(header_records);
    if n > 0 {
        lemma_records_prefix(ls, c, x, n - 1, ids);
        lemma_stacks_prefix(ls, c, x, n - 1);
        assert(c.push(x)[n - 1] == c[n - 1]);
    }
}

/// The records after one more content line `x`, from what reading it did
/// to the table.
proof fn lemma_records_step(
    ls: Seq<Seq<char>>,
    c: Seq<int>,
    x: int,
    ids: bool,
    before: Seq<(Option<BlockId>, Seq<char>, usize)>,
    after: Seq<(Option<BlockId>, Seq<char>, usize)>,
    st: Stacks,
    level: int,
)
    requires
        before == header_records(ls, c, c.len() as int, ids),
        st == stacks_after(ls, c, c.len() as int),
        level == line_level(ls[x]),
        line_block(content_text(ls[x], level as usize)) is Section ==> after == before.push((
            Some(line_parent(st, LineBlock::Section, level)),
            if ids { header_line_id(content_text(ls[x], level as usize)) } else { header_line_name(content_text(ls[x], level as usize)) },
            (x + 1) as usize,
        )),
        !(line_block(content_text(ls[x], level as usize)) is Section) ==> after == before,
    ensures
        after == header_records(ls, c.push(x), (c.len() + 1) as int, ids),
{
    lemma_records_prefix(ls, c, x, c.len() as int, ids);
    lemma_stacks_prefix(ls, c, x, c.len() as int);
    assert(c.push(x)[c.len() as int] == x);
    reveal(header_records);
}

proof fn lemma_records_start(ls: Seq<Seq<char>>, c: Seq<int>, ids: bool)
    requires
        c.len() == 0,
    ensures
        header_records(ls, c, 0, ids) == Seq::<(Option<BlockId>, Seq<char>, usize)>::empty(),
{
    reveal(header_records);
}

/// What a line read without a problem is (see [`readable_line`]).
proof fn lemma_readable(ls: Seq<Seq<char>>, i: int)
    requires
        readable_line(ls, i),
    ensures
        scan_lines(ls, i).in_variables && trim(ls[i]) != "---"@ && trim(ls[i]).len() > 0 && !is_comment_line(ls[i])
            ==> int_definition(trim(ls[i])) is Some && !declared_names(ls, scan_lines(ls, i).definitions).contains(
            int_definition(trim(ls[i]))->Some_0.0,
        ),
        !scan_lines(ls, i).in_variables && !(!scan_lines(ls, i).variables_started && !scan_lines(ls, i).saw_content && trim(ls[i])
            == "--- variables"@) ==> trim(ls[i]) != "--- variables"@,
        !scan_lines(ls, i).in_variables && !(!scan_lines(ls, i).variables_started && !scan_lines(ls, i).saw_content && trim(ls[i])
            == "--- variables"@) ==> is_quiet_line(ls[i]) || indentation(ls[i]) is Level,
        !scan_lines(ls, i).in_variables && !(!scan_lines(ls, i).variables_started && !scan_lines(ls, i).saw_content && trim(ls[i])
            == "--- variables"@) && !is_quiet_line(ls[i]) ==> ({
            let c = scan_lines(ls, i).contents;
            let st = stacks_after(ls, c, c.len() as int);
            let l = line_level(ls[i]);
            let t = content_text(ls[i], l as usize);
            let names = declared_names(ls, scan_lines(ls, i).definitions);
            ||| (line_block(t) is Text || line_block(t) is Jump && !malformed_text(t)
                || line_block(t) is Assignment && set_ok(t, names) || line_block(t) is Requirement && require_ok(t, names))
                && stack_admits(l, st.blocks.len() as int, st.sections.len() as int)
            ||| line_block(t) is Section && header_accepted(t, l, st.sections,
                header_records(ls, c, c.len() as int, false), header_records(ls, c, c.len() as int, true))
            ||| line_block(t) is Option && l > 0 && stack_admits(l, st.blocks.len() as int, st.sections.len() as int) && ({
                let p = line_parent(st, LineBlock::Option(seq![]), l);
                holds_options(ls, c, p as int) && !non_option_child_before(ls, c, c.len() as int, p)
            })
        }),
{
    reveal(readable_line);
}

/// The errors that validation appends are validation errors.
proof fn lemma_validation_kinds(
    before: Seq<ParseError>,
    after: Seq<ParseError>,
    db0: Database,
    db: Database,
    paths: Seq<(BlockId, String)>,
    file: Option<String>,
)
    requires
        validation_reported(before, after, db0, db, paths, file),
    ensures
        forall|k: int| before.len() <= k < after.len() ==> validation_error(#[trigger] after[k]),
{
    let n = db0.blocks@.len() as int;
    let (m1, m2) = choose|m1: Seq<ParseError>, m2: Seq<ParseError>| validation_split(before, after, db0, db, paths, file, m1, m2);
    reveal(reports_jumps);
    assert(m1.len() <= m2.len());
    assert(after.subrange(0, m2.len() as int) == m2);
    assert forall|k: int| before.len() <= k < after.len() implies validation_error(#[trigger] after[k]) by {
        if k < m1.len() {
            assert(m2 == m1);
            assert(after.subrange(0, m2.len() as int)[k] == after[k]);
            assert(m1[k] is InvalidSectionName);
        } else if k < m2.len() {
            assert(after.subrange(0, m2.len() as int)[k] == after[k]);
            assert(m2[k] is EmptySection);
        } else {
            let js = unresolved_jumps(db0, db, db.section_registry@, paths, n);
            assert(jump_error(db, db.section_registry@, paths, js[k - m2.len()], file, after[k]));
        }
    }
}

/// Whether `e` reports that `name` is already recorded under `parent` in
/// the table of values `t`, found at `line` of `file`, the parent being
/// called `parent_name`.
pub open spec fn duplicate_reported(
    e: ParseError,
    t: Seq<(Option<BlockId>, Seq<char>, usize)>,
    parent_name: Seq<char>,
    parent: Option<BlockId>,
    name: Seq<char>,
    file: Option<String>,
    line: usize,
) -> bool {
    &&& e matches ParseError::DuplicateSectionName { name: n, parent_name: pn, file: f, line: l, previous_line: pl }
    &&& n@ == name && pn@ == parent_name && f == file && l == line
    &&& exists|k: int| 0 <= k < t.len() && #[trigger] t[k] == (parent, name, pl)
}

/// Whether `e` is the error that the section header text `t` at `level`
/// (`raw` being the line after its indentation) gets when it is not
/// accepted (see [`header_accepted`]): `open` are the open sections,
/// `names` and `ids` the records so far, and `parent_name` names the
/// parent it would get.
pub open spec fn header_fault(
    t: Seq<char>,
    level: int,
    raw: Seq<char>,
    open: Seq<BlockId>,
    names: Seq<(Option<BlockId>, Seq<char>, usize)>,
    ids: Seq<(Option<BlockId>, Seq<char>, usize)>,
    parent_name: Seq<char>,
    file: Option<String>,
    line: usize,
    e: ParseError,
) -> bool {
    match section_parent_at(open, level) {
        None => e matches ParseError::InvalidIndentation { message, file: f, line: l } && message@ == too_deep_message(
            level as nat,
            raw,
        ) && f == file && l == line,
        Some(p) => if hash_prefix_len(trim_start(t)) > 1 && p == Some(0usize) {
            e matches ParseError::InvalidSectionHierarchy { message, file: f, line: l }
                && message@ == "found sub-section without parent section."@ && f == file && l == line
        } else if recorded_view(names, p, header_line_name(t)) {
            duplicate_reported(e, names, parent_name, p, header_line_name(t), file, line)
        } else {
            duplicate_reported(e, ids, parent_name, p, header_line_id(t), file, line)
        },
    }
}

/// A record table as values.
pub open spec fn table_views(t: Seq<(Option<BlockId>, String, usize)>) -> Seq<(Option<BlockId>, Seq<char>, usize)> {
    t.map_values(|e: (Option<BlockId>, String, usize)| (e.0, e.1@, e.2))
}

/// Whether no block of `db` is a section or a jump.
pub open spec fn no_sections_or_jumps(db: Database) -> bool {
    forall|j: int| 0 <= j < db.blocks@.len() ==> !((#[trigger] db.blocks@[j]).block_type is Section)
        && !(db.blocks@[j].block_type is GoTo) && !(db.blocks@[j].block_type is GoToAndBack)
}

/// The blocks and strings of `old` stay as they are in `new`, apart from
/// the children lists.
pub open spec fn keeps_blocks(old: Database, new: Database) -> bool {
    &&& keeps_lines(old, new)
    &&& forall|i: int| 0 <= i < old.blocks@.len() ==> (#[trigger] new.blocks@[i]).block_type == old.blocks@[i].block_type
}

proof fn lemma_follow_kept(old_db: Database, new_db: Database, ls: Seq<Seq<char>>, cl: Seq<int>)
    requires
        blocks_follow(old_db, ls, cl),
        keeps_blocks(old_db, new_db),
    ensures
        blocks_follow(new_db, ls, cl),
{
    assert forall|j: int| 0 <= j < cl.len() implies (#[trigger] new_db.blocks@[j + 1]).line == cl[j] + 1
        && indentation(ls[cl[j]]) == Indentation::Level(new_db.blocks@[j + 1].level as nat)
        && block_matches(new_db, j + 1, line_block(content_text(ls[cl[j]], new_db.blocks@[j + 1].level))) by {
        assert(old_db.blocks@[j + 1].line == cl[j] + 1);
        let k = line_block(content_text(ls[cl[j]], old_db.blocks@[j + 1].level));
        assert(block_matches(old_db, j + 1, k));
        assert(new_db.blocks@[j + 1].block_type == old_db.blocks@[j + 1].block_type);
        match old_db.blocks@[j + 1].block_type {
            BlockType::String(sid) => {
                if sid < old_db.strings@.len() {
                    assert(new_db.strings@[sid as int] == old_db.strings@[sid as int]);
                }
            },
            BlockType::Option(sid) => {
                if sid < old_db.strings@.len() {
                    assert(new_db.strings@[sid as int] == old_db.strings@[sid as int]);
                }
            },
            _ => {},
        }
    }
}

proof fn lemma_follow_added(
    old_db: Database,
    new_db: Database,
    ls: Seq<Seq<char>>,
    cl: Seq<int>,
    idx: int,
    level: usize,
)
    requires
        blocks_follow(old_db, ls, cl),
        old_db.blocks@.len() == cl.len() + 1,
        keeps_blocks(old_db, new_db),
        added_one(old_db, new_db, (idx + 1) as usize, level),
        0 <= idx,
        idx + 1 <= usize::MAX,
        indentation(ls[idx]) == Indentation::Level(level as nat),
        block_matches(new_db, new_db.blocks@.len() - 1, line_block(content_text(ls[idx], level))),
    ensures
        blocks_follow(new_db, ls, cl.push(idx)),
        new_db.blocks@.len() == cl.push(idx).len() + 1,
{
    lemma_follow_kept(old_db, new_db, ls, cl);
    let c2 = cl.push(idx);
    assert forall|j: int| 0 <= j < c2.len() implies (#[trigger] new_db.blocks@[j + 1]).line == c2[j] + 1
        && indentation(ls[c2[j]]) == Indentation::Level(new_db.blocks@[j + 1].level as nat)
        && block_matches(new_db, j + 1, line_block(content_text(ls[c2[j]], new_db.blocks@[j + 1].level))) by {
        if j < cl.len() {
            assert(c2[j] == cl[j]);
        } else {
            assert(j + 1 == new_db.blocks@.len() - 1);
        }
    }
}

/// Each jump line among the content lines `cl` has its written target
/// recorded in `paths` for its block, which is an unresolved jump.
pub open spec fn jumps_recorded(db: Database, ls: Seq<Seq<char>>, cl: Seq<int>, paths: Seq<(BlockId, String)>) -> bool {
    forall|j: int|
        0 <= j < cl.len() && (line_block(content_text(ls[cl[j]], db.blocks@[j + 1].level)) is Jump) ==> {
            &&& has_path(paths, j + 1)
            &&& path_for(paths, j + 1) == jump_text(content_text(ls[cl[j]], db.blocks@[j + 1].level))
            &&& (#[trigger] db.blocks@[j + 1]).block_type is GoTo
        }
}

/// Each jump line among the content lines `cl` leads where its written
/// target resolves from the section that holds its block.
pub open spec fn jumps_resolved(db: Database, ls: Seq<Seq<char>>, cl: Seq<int>) -> bool {
    forall|j: int|
        0 <= j < cl.len() && (line_block(content_text(ls[cl[j]], db.blocks@[j + 1].level)) is Jump)
            ==> resolve_target(
            db,
            db.section_registry@,
            jump_text(content_text(ls[cl[j]], db.blocks@[j + 1].level)),
            containing_block(db, j + 1),
        ) == Resolved::Target((#[trigger] db.blocks@[j + 1]).block_type)
}

proof fn lemma_path_for_push(paths: Seq<(BlockId, String)>, e: (BlockId, String), i: int)
    requires
        has_path(paths, i),
    ensures
        has_path(paths.push(e), i),
        path_for(paths.push(e), i) == path_for(paths, i),
{
    let k0 = choose|k: int| 0 <= k < paths.len() && (#[trigger] paths[k]).0 == i;
    lemma_path_first(paths, i, k0);
    let k = choose|k: int|
        0 <= k < paths.len() && (#[trigger] paths[k]).0 == i && forall|j: int| 0 <= j < k ==> paths[j].0 != i;
    let p2 = paths.push(e);
    assert(p2[k] == paths[k]);
    assert(has_path(p2, i));
    assert forall|j: int| 0 <= j < k implies p2[j].0 != i by {
        assert(p2[j] == paths[j]);
    }
    lemma_path_for(p2, i, k);
    lemma_path_for(paths, i, k);
}

proof fn lemma_path_first(paths: Seq<(BlockId, String)>, i: int, w: int)
    requires
        0 <= w < paths.len(),
        paths[w].0 == i,
    ensures
        exists|k: int| 0 <= k < paths.len() && (#[trigger] paths[k]).0 == i && forall|j: int| 0 <= j < k ==> paths[j].0 != i,
    decreases w,
{
    if exists|j: int| 0 <= j < w && paths[j].0 == i {
        let j = choose|j: int| 0 <= j < w && paths[j].0 == i;
        lemma_path_first(paths, i, j);
    } else {
        assert(0 <= w < paths.len() && paths[w].0 == i && forall|j: int| 0 <= j < w ==> paths[j].0 != i);
    }
}

proof fn lemma_jumps_kept(
    old_db: Database,
    new_db: Database,
    ls: Seq<Seq<char>>,
    cl: Seq<int>,
    paths: Seq<(BlockId, String)>,
)
    requires
        jumps_recorded(old_db, ls, cl, paths),
        blocks_follow(old_db, ls, cl),
        keeps_blocks(old_db, new_db),
    ensures
        jumps_recorded(new_db, ls, cl, paths),
{
    assert forall|j: int| 0 <= j < cl.len() && (line_block(content_text(ls[cl[j]], new_db.blocks@[j + 1].level)) is Jump)
        implies {
            &&& has_path(paths, j + 1)
            &&& path_for(paths, j + 1) == jump_text(content_text(ls[cl[j]], new_db.blocks@[j + 1].level))
            &&& (#[trigger] new_db.blocks@[j + 1]).block_type is GoTo
        } by {
        assert(old_db.blocks@[j + 1].line == cl[j] + 1);
        assert(new_db.blocks@[j + 1].level == old_db.blocks@[j + 1].level);
        assert(new_db.blocks@[j + 1].block_type == old_db.blocks@[j + 1].block_type);
    }
}

proof fn lemma_jumps_added(
    old_db: Database,
    new_db: Database,
    ls: Seq<Seq<char>>,
    cl: Seq<int>,
    old_paths: Seq<(BlockId, String)>,
    new_paths: Seq<(BlockId, String)>,
    idx: int,
    level: usize,
)
    requires
        jumps_recorded(old_db, ls, cl, old_paths),
        blocks_follow(old_db, ls, cl),
        old_db.blocks@.len() == cl.len() + 1,
        keeps_blocks(old_db, new_db),
        new_db.blocks@.len() == old_db.blocks@.len() + 1,
        new_db.blocks@.last().level == level,
        forall|k: int| 0 <= k < old_paths.len() ==> (#[trigger] old_paths[k]).0 < old_db.blocks@.len(),
        if line_block(content_text(ls[idx], level)) is Jump {
            &&& new_paths.len() == old_paths.len() + 1
            &&& new_paths.drop_last() == old_paths
            &&& new_paths.last().0 == old_db.blocks@.len()
            &&& new_paths.last().1@ == jump_text(content_text(ls[idx], level))
            &&& new_db.blocks@.last().block_type is GoTo
        } else {
            new_paths == old_paths
        },
    ensures
        jumps_recorded(new_db, ls, cl.push(idx), new_paths),
{
    let c2 = cl.push(idx);
    let n = cl.len();
    assert forall|j: int| 0 <= j < c2.len() && (line_block(content_text(ls[c2[j]], new_db.blocks@[j + 1].level)) is Jump)
        implies {
            &&& has_path(new_paths, j + 1)
            &&& path_for(new_paths, j + 1) == jump_text(content_text(ls[c2[j]], new_db.blocks@[j + 1].level))
            &&& (#[trigger] new_db.blocks@[j + 1]).block_type is GoTo
        } by {
        if j < n {
            assert(c2[j] == cl[j]);
            assert(new_db.blocks@[j + 1].level == old_db.blocks@[j + 1].level);
            assert(new_db.blocks@[j + 1].block_type == old_db.blocks@[j + 1].block_type);
            assert(has_path(old_paths, j + 1));
            if line_block(content_text(ls[idx], level)) is Jump {
                assert(new_paths == old_paths.push(new_paths.last()));
                lemma_path_for_push(old_paths, new_paths.last(), j + 1);
            }
        } else {
            assert(j == n);
            assert(c2[j] == idx);
            assert(j + 1 == new_db.blocks@.len() - 1);
            let k = old_paths.len() as int;
            assert(new_paths[k] == new_paths.last());
            assert forall|m: int| 0 <= m < k implies new_paths[m].0 != j + 1 by {
                assert(new_paths[m] == new_paths.drop_last()[m]);
                assert(old_paths[m].0 < old_db.blocks@.len());
            }
            assert(has_path(new_paths, j + 1));
            lemma_path_for(new_paths, j + 1, k);
        }
    }
}

proof fn lemma_jumps_resolved(
    pre: Database,
    post: Database,
    ls: Seq<Seq<char>>,
    cl: Seq<int>,
    paths: Seq<(BlockId, String)>,
)
    requires
        jumps_recorded(pre, ls, cl, paths),
        pre.blocks@.len() >= cl.len() + 1,
        keeps_lines(pre, post),
        post.blocks@.len() == pre.blocks@.len(),
        forall|j: int|
            0 <= j < pre.blocks@.len() && (pre.blocks@[j].block_type is GoTo) ==> resolve_target(
                post,
                post.section_registry@,
                path_for(paths, j),
                containing_block(post, j),
            ) == Resolved::Target((#[trigger] post.blocks@[j]).block_type),
    ensures
        jumps_resolved(post, ls, cl),
{
    assert forall|j: int|
        0 <= j < cl.len() && (line_block(content_text(ls[cl[j]], post.blocks@[j + 1].level)) is Jump) implies resolve_target(
            post,
            post.section_registry@,
            jump_text(content_text(ls[cl[j]], post.blocks@[j + 1].level)),
            containing_block(post, j + 1),
        ) == Resolved::Target((#[trigger] post.blocks@[j + 1]).block_type) by {
        assert(post.blocks@[j + 1].level == pre.blocks@[j + 1].level);
        assert(pre.blocks@[j + 1].block_type is GoTo);
    }
}

/// The blocks of `old` keep their lines and levels in `new`, which has at
/// least as many blocks.
pub open spec fn keeps_lines(old: Database, new: Database) -> bool {
    &&& new.blocks@.len() >= old.blocks@.len()
    &&& forall|i: int|
        0 <= i < old.blocks@.len() ==> (#[trigger] new.blocks@[i]).line == old.blocks@[i].line
            && new.blocks@[i].level == old.blocks@[i].level
            && new.blocks@[i].parent_id == old.blocks@[i].parent_id
    &&& new.strings@.len() >= old.strings@.len()
    &&& forall|i: int| 0 <= i < old.strings@.len() ==> #[trigger] new.strings@[i] == old.strings@[i]
    &&& new.sections@.len() >= old.sections@.len()
    &&& forall|i: int| 0 <= i < old.sections@.len() ==> #[trigger] new.sections@[i] == old.sections@[i]
}

/// `new` is `old` with one more block, for line `line` at `level`.
pub open spec fn added_one(old: Database, new: Database, line: usize, level: usize) -> bool {
    &&& keeps_lines(old, new)
    &&& new.blocks@.len() == old.blocks@.len() + 1
    &&& new.blocks@.last().line == line
    &&& new.blocks@.last().level == level
}

impl Parser {
    /// The display name of the section that `parent_id` is, or `<root>`.
    fn parent_display_name(&self, database: &Database, parent_id: Option<BlockId>, start_id: BlockId) -> (name: String)
        requires
            self.inv(*database),
            parent_id matches Some(p) ==> p < database.blocks@.len(),
        ensures
            name@ == parent_display(*database, parent_id, start_id),
    {
        let root = chars_of("<root>");
        match parent_id {
            Some(pid) => {
                if pid == start_id {
                    string_from_chars(root.as_slice())
                } else {
                    match database.blocks[pid].block_type {
                        BlockType::Section(sid) => {
                            let sec = &database.sections[sid];
                            database.strings[sec.name].clone()
                        },
                        _ => string_from_chars(root.as_slice()),
                    }
                }
            },
            None => string_from_chars(root.as_slice()),
        }
    }

    /// Adds a section header at `level`. Its parent is the section open one
    /// level up (the start block at the root); a sub-section (`##` or more)
    /// at the root, or a name or identifier already used under the same
    /// parent, is an error. A name with stray spaces is trimmed, with a
    /// warning.
    #[verifier::rlimit(100)]
    #[verifier::spinoff_prover]
    fn add_section(
        &mut self,
        context: &mut ParserContext,
        level: usize,
        content: &[char],
        section: SectionParseResult,
        start_id: BlockId,
    )
        requires
            old(self).inv(old(context).database),
            level <= usize::MAX / 2,
            start_id == 0,
        ensures
            final(self).errors@.len() == old(self).errors@.len() ==> ({
                let db = final(context).database;
                &&& db.blocks@.last().block_type matches BlockType::Section(sid)
                &&& sid < db.sections@.len()
                &&& db.sections@[sid as int].name < db.strings@.len()
                &&& db.sections@[sid as int].id < db.strings@.len()
                &&& db.strings@[db.sections@[sid as int].name as int]@ == header_name(section)
                &&& db.strings@[db.sections@[sid as int].id as int]@ == if section.id_is_implicit {
                    header_name(section)
                } else {
                    header_id(section)
                }
                &&& (db.sections@[sid as int].id == db.sections@[sid as int].name) == section.id_is_implicit
            }),
            final(self).errors@.len() == old(self).errors@.len() ==> level <= old(self).last_section_at_level@.len(),
            final(self).errors@.len() == old(self).errors@.len() ==> forall|b: BlockId|
                #[trigger] final(self).seen_non_option_by_parent@.contains(b) <==> (old(self).seen_non_option_by_parent@.contains(b)
                    || final(context).database.blocks@.last().parent_id == Some(b)),
            trim(section.display_name@) != section.display_name@ ==> (final(self).warnings@.len() == old(self).warnings@.len() + 1
                && final(self).warnings@.drop_last() == old(self).warnings@
                && final(self).warnings@.last().message@ == whitespace_warning(section.display_name@, trim(section.display_name@))
                && final(self).warnings@.last().file == old(self).file_path
                && final(self).warnings@.last().line == old(context).current_line),
            trim(section.display_name@) == section.display_name@ ==> final(self).warnings == old(self).warnings,
            section_parent_at(old(self).last_section_at_level@, level as int) is None ==> {
                &&& final(self).errors@.len() == old(self).errors@.len() + 1
                &&& final(self).errors@.drop_last() == old(self).errors@
                &&& final(self).errors@.last() matches ParseError::InvalidIndentation { message, file, line }
                &&& message@ == too_deep_message(level as nat, content@)
                &&& file == old(self).file_path && line == old(context).current_line
            },
            section_parent_at(old(self).last_section_at_level@, level as int) is Some ==> ({
                let p = section_parent_at(old(self).last_section_at_level@, level as int)->Some_0;
                if section.hash_count > 1 && p == Some(0usize) {
                    &&& final(self).errors@.len() == old(self).errors@.len() + 1
                    &&& final(self).errors@.drop_last() == old(self).errors@
                    &&& final(self).errors@.last() matches ParseError::InvalidSectionHierarchy { message, file, line }
                    &&& message@ == "found sub-section without parent section."@
                    &&& file == old(self).file_path && line == old(context).current_line
                } else if recorded(old(self).section_names_by_parent@, p, header_name(section)) {
                    &&& final(self).errors@.len() == old(self).errors@.len() + 1
                    &&& final(self).errors@.drop_last() == old(self).errors@
                    &&& duplicate_error(final(self).errors@.last(), old(self).section_names_by_parent@, old(context).database, p,
                        header_name(section), old(self).file_path, old(context).current_line)
                } else if recorded(old(self).section_ids_by_parent@, p, header_id(section)) {
                    &&& final(self).errors@.len() == old(self).errors@.len() + 1
                    &&& final(self).errors@.drop_last() == old(self).errors@
                    &&& duplicate_error(final(self).errors@.last(), old(self).section_ids_by_parent@, old(context).database, p,
                        header_id(section), old(self).file_path, old(context).current_line)
                } else {
                    final(self).errors == old(self).errors
                }
            }),
            final(self).errors@.subrange(0, old(self).errors@.len() as int) == old(self).errors@,
            final(self).errors@.len() == old(self).errors@.len() ==> {
                &&& table_views(final(self).section_names_by_parent@) == table_views(old(self).section_names_by_parent@).push(
                    (Some(line_parent(old(self).stacks(), LineBlock::Section, level as int)), header_name(section), old(context).current_line))
                &&& table_views(final(self).section_ids_by_parent@) == table_views(old(self).section_ids_by_parent@).push(
                    (Some(line_parent(old(self).stacks(), LineBlock::Section, level as int)), header_id(section), old(context).current_line))
            },
            final(self).goto_paths == old(self).goto_paths,
            final(context).database.variables == old(context).database.variables,
            final(self).inv(final(context).database),
            final(context).current_line == old(context).current_line,
            final(context).file_path == old(context).file_path,
            final(self).file_path == old(self).file_path,
            final(context).database.blocks@.len() >= old(context).database.blocks@.len(),
            keeps_blocks(old(context).database, final(context).database),
            final(self).errors@.len() >= old(self).errors@.len(),
            final(self).errors@.len() == old(self).errors@.len() ==> added_one(
                old(context).database,
                final(context).database,
                old(context).current_line,
                level,
            ),
            final(self).errors@.len() == old(self).errors@.len() ==> final(context).database.blocks@.last().block_type is Section,
            final(self).errors@.len() == old(self).errors@.len() ==> {
                &&& final(self).last_block_at_level@ == line_stacks(old(self).stacks(), LineBlock::Section, level as int, old(context).database.blocks@.len() as BlockId).blocks
                &&& final(self).last_section_at_level@ == line_stacks(old(self).stacks(), LineBlock::Section, level as int, old(context).database.blocks@.len() as BlockId).sections
                &&& final(context).database.blocks@.last().parent_id == Some(line_parent(old(self).stacks(), LineBlock::Section, level as int))
            },
    {
        let line = context.current_line;
        let mut display = chars_of(section.display_name.as_str());
        let mut id = chars_of(section.id.as_str());
        let trimmed_display = trim_chars(display.as_slice());
        if !chars_eq(trimmed_display.as_slice(), display.as_slice()) {
            self.warnings.push(Warning {
                message: whitespace_warning_text(display.as_slice(), trimmed_display.as_slice()),
                file: self.file_path.clone(),
                line,
            });
            if section.id_is_implicit {
                id = slice_chars(trimmed_display.as_slice(), 0, trimmed_display.len());
                assert(id@ =~= trimmed_display@);
            }
            display = trimmed_display;
        }
        assert(display@ == header_name(section) && id@ == header_id(section));
        let parent_id: Option<BlockId> = if level == 0 {
            Some(start_id)
        } else if level <= self.last_section_at_level.len() {
            self.last_section_at_level.truncate(level);
            proof {
                let db = context.database;
                assert forall|k: int| 0 <= k < self.last_section_at_level@.len() implies #[trigger] self.last_section_at_level@[k] < db.blocks@.len() by {
                    assert(self.last_section_at_level@[k] == old(self).last_section_at_level@[k]);
                }
            }
            Some(self.last_section_at_level[level - 1])
        } else {
            self.errors.push(ParseError::InvalidIndentation {
                message: too_deep(level, content),
                file: self.file_path.clone(),
                line,
            });
            return;
        };
        if section.hash_count > 1 && parent_id == Some(start_id) {
            let message = chars_of("found sub-section without parent section.");
            self.errors.push(ParseError::InvalidSectionHierarchy {
                message: string_from_chars(message.as_slice()),
                file: self.file_path.clone(),
                line,
            });
            return;
        }
        match find_recorded(&self.section_names_by_parent, parent_id, display.as_slice()) {
            Some(previous_line) => {
                let parent_name = self.parent_display_name(&context.database, parent_id, start_id);
                self.errors.push(ParseError::DuplicateSectionName {
                    name: string_from_chars(display.as_slice()),
                    parent_name,
                    file: self.file_path.clone(),
                    line,
                    previous_line,
                });
                return;
            },
            None => {},
        }
        let ghost names0 = self.section_names_by_parent@;
        self.section_names_by_parent.push((parent_id, string_from_chars(display.as_slice()), line));
        assert(table_views(self.section_names_by_parent@) =~= table_views(names0).push((parent_id, display@, line)));
        match find_recorded(&self.section_ids_by_parent, parent_id, id.as_slice()) {
            Some(previous_line) => {
                let parent_name = self.parent_display_name(&context.database, parent_id, start_id);
                self.errors.push(ParseError::DuplicateSectionName {
                    name: string_from_chars(id.as_slice()),
                    parent_name,
                    file: self.file_path.clone(),
                    line,
                    previous_line,
                });
                return;
            },
            None => {},
        }
        let ghost ids0 = self.section_ids_by_parent@;
        self.section_ids_by_parent.push((parent_id, string_from_chars(id.as_slice()), line));
        assert(table_views(self.section_ids_by_parent@) =~= table_views(ids0).push((parent_id, id@, line)));
        let path = self.build_section_path_during_parse(&context.database, display.as_slice(), level, false);
        let id_path = self.build_section_path_during_parse(&context.database, id.as_slice(), level, true);
        let ghost db0 = context.database;
        let name_string_id = context.database.add_string(string_from_chars(display.as_slice()));
        proof {
            assert(context.database.strings@.drop_last() =~= db0.strings@);
            self.lemma_inv_after_string(db0, context.database);
        }
        let id_string_id = if section.id_is_implicit {
            name_string_id
        } else {
            let ghost db1 = context.database;
            let sid = context.database.add_string(string_from_chars(id.as_slice()));
            proof {
                assert(context.database.strings@.drop_last() =~= db1.strings@);
                self.lemma_inv_after_string(db1, context.database);
            }
            sid
        };
        let ghost db2 = context.database;
        let path_string_id = context.database.add_string(string_from_chars(path.as_slice()));
        proof {
            assert(context.database.strings@.drop_last() =~= db2.strings@);
            self.lemma_inv_after_string(db2, context.database);
        }
        let ghost db3 = context.database;
        let id_path_string_id = context.database.add_string(string_from_chars(id_path.as_slice()));
        proof {
            assert(context.database.strings@.drop_last() =~= db3.strings@);
            self.lemma_inv_after_string(db3, context.database);
        }
        let ghost db4 = context.database;
        let (block_id, _section_id) = context.database.add_section_block(
            name_string_id,
            id_string_id,
            path_string_id,
            id_path_string_id,
            parent_id,
            level,
            line,
        );
        proof {
            let db = context.database;
            assert forall|i: int| 0 <= i < db.blocks@.len() && (#[trigger] db.blocks@[i]).block_type is GoTo
                implies has_path(self.goto_paths@, i) by {
                assert(i < block_id);
                assert(db.blocks@[i].block_type == db4.blocks@[i].block_type);
                assert(db4.blocks@[i] == db4.blocks@[i]);
            }
            assert forall|i: int| 0 <= i < db.blocks@.len() implies !((#[trigger] db.blocks@[i]).block_type is GoToAndBack) by {
                if i < block_id {
                    assert(db.blocks@[i].block_type == db4.blocks@[i].block_type);
                    assert(db4.blocks@[i] == db4.blocks@[i]);
                }
            }
            assert forall|k: int| 0 <= k < self.last_block_at_level@.len() implies #[trigger] self.last_block_at_level@[k] < db.blocks@.len() by {
                assert(self.last_block_at_level@[k] < db4.blocks@.len());
            }
            assert forall|k: int| 0 <= k < self.last_section_at_level@.len() implies #[trigger] self.last_section_at_level@[k] < db.blocks@.len() by {
                assert(self.last_section_at_level@[k] < db4.blocks@.len());
            }
            assert forall|k: int| 0 <= k < self.goto_paths@.len() implies (#[trigger] self.goto_paths@[k]).0 < db.blocks@.len() by {
                assert(self.goto_paths@[k].0 < db4.blocks@.len());
            }
        }
        self.record_block(level, block_id, Ghost(context.database));
        self.record_section(level, block_id, Ghost(context.database));
        self.mark_non_option_child(parent_id);
    }
}


// ---------------------------------------------------------------------------
// Section lookups over a consistent database
// ---------------------------------------------------------------------------

/// Whether block `b` is a section block.
pub open spec fn is_section_block(db: Database, b: int) -> bool {
    0 <= b < db.blocks@.len() && db.blocks@[b].block_type is Section
}

/// The identifier text of the section that block `b` is.
pub open spec fn section_ident(db: Database, b: int) -> Seq<char> {
    match db.blocks@[b].block_type {
        BlockType::Section(sid) => db.strings@[db.sections@[sid as int].id as int]@,
        _ => seq![],
    }
}

/// The nearest section strictly above block `b`.
pub open spec fn parent_section(db: Database, b: int) -> Option<int>
    decreases b,
{
    if 0 <= b < db.blocks@.len() {
        match db.blocks@[b].parent_id {
            Some(p) => if p < b {
                if is_section_block(db, p as int) {
                    Some(p as int)
                } else {
                    parent_section(db, p as int)
                }
            } else {
                None
            },
            None => None,
        }
    } else {
        None
    }
}

/// The section block `b` belongs to: itself when it is a section, else the
/// nearest section above it.
pub open spec fn containing_section(db: Database, b: int) -> Option<int> {
    if is_section_block(db, b) {
        Some(b)
    } else {
        parent_section(db, b)
    }
}

/// [`containing_section`] as a block id.
pub open spec fn containing_block(db: Database, b: int) -> Option<BlockId> {
    match containing_section(db, b) {
        Some(x) => Some(x as BlockId),
        None => None,
    }
}

/// The identifiers of the sections from the root down to block `b` (each
/// block with a parent that is a section contributes its identifier).
pub open spec fn ident_chain(db: Database, b: int) -> Seq<Seq<char>>
    decreases b,
{
    if 0 <= b < db.blocks@.len() {
        match db.blocks@[b].parent_id {
            Some(p) => {
                let above = if p < b { ident_chain(db, p as int) } else { seq![] };
                if is_section_block(db, b) {
                    above.push(section_ident(db, b))
                } else {
                    above
                }
            },
            None => seq![],
        }
    } else {
        seq![]
    }
}

/// The first entry of the registry for `key`, searching from entry `k`.
pub open spec fn registry_from(reg: Seq<(String, SectionId)>, key: Seq<char>, k: int) -> Option<SectionId>
    decreases reg.len() - k,
{
    if k < 0 || k >= reg.len() {
        None
    } else if reg[k].0@ == key {
        Some(reg[k].1)
    } else {
        registry_from(reg, key, k + 1)
    }
}

/// The first entry of the registry for `key`.
pub open spec fn registry_get(reg: Seq<(String, SectionId)>, key: Seq<char>) -> Option<SectionId> {
    registry_from(reg, key, 0)
}

/// Registry entries name existing sections.
pub open spec fn registry_ok(reg: Seq<(String, SectionId)>, db: Database) -> bool {
    forall|k: int| 0 <= k < reg.len() ==> (#[trigger] reg[k]).1 < db.sections@.len()
}

/// The registry's entries by their text.
pub open spec fn registry_views(reg: Seq<(String, SectionId)>) -> Seq<(Seq<char>, SectionId)> {
    reg.map_values(|e: (String, SectionId)| (e.0@, e.1))
}

proof fn lemma_registry_from_same(a: Seq<(String, SectionId)>, b: Seq<(String, SectionId)>, key: Seq<char>, k: int)
    requires
        registry_views(a) == registry_views(b),
    ensures
        registry_from(a, key, k) == registry_from(b, key, k),
    decreases a.len() - k,
{
    assert(a.len() == registry_views(a).len());
    assert(b.len() == registry_views(b).len());
    if 0 <= k < a.len() {
        assert(registry_views(a)[k] == registry_views(b)[k]);
        lemma_registry_from_same(a, b, key, k + 1);
    }
}

proof fn lemma_registry_ok_same(a: Seq<(String, SectionId)>, b: Seq<(String, SectionId)>, db: Database)
    requires
        registry_views(a) == registry_views(b),
        registry_ok(a, db),
    ensures
        registry_ok(b, db),
{
    assert(a.len() == registry_views(a).len());
    assert(b.len() == registry_views(b).len());
    assert forall|k: int| 0 <= k < b.len() implies (#[trigger] b[k]).1 < db.sections@.len() by {
        assert(registry_views(a)[k] == registry_views(b)[k]);
        assert(a[k].1 < db.sections@.len());
    }
}

/// A copy of the registry, entry by entry.
fn copy_registry(reg: &Vec<(String, SectionId)>) -> (out: Vec<(String, SectionId)>)
    ensures
        registry_views(out@) == registry_views(reg@),
        out@ == reg@,
{
    let mut out: Vec<(String, SectionId)> = Vec::new();
    let mut k: usize = 0;
    while k < reg.len()
        invariant
            0 <= k <= reg@.len(),
            out@.len() == k,
            out@ == reg@.take(k as int),
            registry_views(out@) == registry_views(reg@).take(k as int),
        decreases reg.len() - k,
    {
        let ghost before = out@;
        let key = reg[k].0.clone();
        out.push((key, reg[k].1));
        proof {
            assert(out@ == before.push((reg@[k as int].0, reg@[k as int].1)));
            assert forall|j: int| 0 <= j <= k implies #[trigger] registry_views(out@)[j] == registry_views(reg@)[j] by {
                if j < k {
                    assert(out@[j] == before[j]);
                    assert(registry_views(before)[j] == registry_views(reg@).take(k as int)[j]);
                }
            }
        }
        k = k + 1;
        assert(out@ =~= reg@.take(k as int));
        assert(registry_views(out@) =~= registry_views(reg@).take(k as int));
    }
    assert(registry_views(reg@).take(k as int) =~= registry_views(reg@));
    assert(reg@.take(k as int) =~= reg@);
    out
}

fn registry_lookup(reg: &Vec<(String, SectionId)>, key: &[char]) -> (r: Option<SectionId>)
    ensures
        r == registry_get(reg@, key@),
{
    let mut k: usize = 0;
    while k < reg.len()
        invariant
            0 <= k <= reg@.len(),
            registry_get(reg@, key@) == registry_from(reg@, key@, k as int),
        decreases reg.len() - k,
    {
        let text = chars_of(reg[k].0.as_str());
        if chars_eq(text.as_slice(), key) {
            return Some(reg[k].1);
        }
        k = k + 1;
    }
    None
}

/// The section id of block `b`, when it is a section.
fn get_section_id(database: &Database, block_id: BlockId) -> (r: Option<SectionId>)
    requires
        block_id < database.blocks@.len(),
    ensures
        match database.blocks@[block_id as int].block_type {
            BlockType::Section(sid) => r == Some(sid),
            _ => r is None,
        },
{
    match database.blocks[block_id].block_type {
        BlockType::Section(sid) => Some(sid),
        _ => None,
    }
}

/// The nearest section above `block_id`.
fn find_parent_section(database: &Database, block_id: BlockId) -> (r: Option<BlockId>)
    requires
        database.tree_wf(),
        block_id < database.blocks@.len(),
    ensures
        match parent_section(*database, block_id as int) {
            Some(p) => r == Some(p as BlockId) && 0 <= p < database.blocks@.len(),
            None => r is None,
        },
        r matches Some(b) ==> b < database.blocks@.len() && parent_section(*database, block_id as int) == Some(b as int),
{
    let mut current = block_id;
    loop
        invariant
            database.tree_wf(),
            current < database.blocks@.len(),
            parent_section(*database, block_id as int) == parent_section(*database, current as int),
        decreases current,
    {
        match database.blocks[current].parent_id {
            Some(parent_id) => {
                assert(database.blocks@[current as int] == database.blocks@[current as int]);
                match database.blocks[parent_id].block_type {
                    BlockType::Section(_) => return Some(parent_id),
                    _ => {},
                }
                current = parent_id;
            },
            None => return None,
        }
    }
}

/// The section `block_id` belongs to.
fn find_containing_section(database: &Database, block_id: BlockId) -> (r: Option<BlockId>)
    requires
        database.tree_wf(),
        block_id < database.blocks@.len(),
    ensures
        match containing_section(*database, block_id as int) {
            Some(p) => r == Some(p as BlockId) && p < database.blocks@.len(),
            None => r is None,
        },
        r matches Some(b) ==> b < database.blocks@.len(),
{
    match database.blocks[block_id].block_type {
        BlockType::Section(_) => Some(block_id),
        _ => find_parent_section(database, block_id),
    }
}

/// The identifier of the section that `block_id` is (empty otherwise).
fn section_ident_text(database: &Database, block_id: BlockId) -> (out: Vec<char>)
    requires
        database.wf_with(true),
        block_id < database.blocks@.len(),
    ensures
        out@ == section_ident(*database, block_id as int),
{
    match database.blocks[block_id].block_type {
        BlockType::Section(sid) => {
            assert(database.blocks@[block_id as int] == database.blocks@[block_id as int]);
            let sec = &database.sections[sid];
            assert(database.sections@[sid as int] == database.sections@[sid as int]);
            chars_of(database.strings[sec.id].as_str())
        },
        _ => Vec::new(),
    }
}

/// Whether child `c` is a section named `name` other than `exclude`.
pub open spec fn names_section(db: Database, c: int, name: Seq<char>, exclude: Option<BlockId>) -> bool {
    &&& exclude != Some(c as BlockId)
    &&& is_section_block(db, c)
    &&& section_ident(db, c) == name
}

/// The first child of `parent` (in order) that is a section with
/// identifier `name`, other than `exclude`.
pub open spec fn first_child_named(db: Database, parent: int, name: Seq<char>, exclude: Option<BlockId>) -> Option<int> {
    let ch = db.blocks@[parent].children@;
    if exists|k: int| 0 <= k < ch.len() && names_section(db, #[trigger] ch[k] as int, name, exclude) {
        let k = choose|k: int|
            0 <= k < ch.len() && names_section(db, #[trigger] ch[k] as int, name, exclude) && forall|j: int|
                0 <= j < k ==> !names_section(db, ch[j] as int, name, exclude);
        Some(ch[k] as int)
    } else {
        None
    }
}

/// The sibling of `b` (a child of the same parent, not `b`) that is a
/// section with identifier `name`, the first in order.
pub open spec fn sibling_named(db: Database, b: int, name: Seq<char>) -> Option<int> {
    match db.blocks@[b].parent_id {
        Some(p) => first_child_named(db, p as int, name, Some(b as BlockId)),
        None => None,
    }
}

/// The first child of `parent_id` that is a section with identifier
/// `name`, other than `exclude`.
fn find_child_named(database: &Database, parent_id: BlockId, name: &[char], exclude: Option<BlockId>) -> (r: Option<BlockId>)
    requires
        database.wf_with(true),
        parent_id < database.blocks@.len(),
    ensures
        match first_child_named(*database, parent_id as int, name@, exclude) {
            Some(c) => r == Some(c as BlockId) && c < database.blocks@.len(),
            None => r is None,
        },
{
    let children = &database.blocks[parent_id].children;
    let ghost ch = database.blocks@[parent_id as int].children@;
    let mut k: usize = 0;
    while k < children.len()
        invariant
            database.wf_with(true),
            parent_id < database.blocks@.len(),
            ch == database.blocks@[parent_id as int].children@,
            children@ == ch,
            0 <= k <= ch.len(),
            forall|j: int| 0 <= j < k ==> !names_section(*database, #[trigger] ch[j] as int, name@, exclude),
        decreases children.len() - k,
    {
        let child = children[k];
        assert(ch[k as int] == child);
        assert(child < database.blocks@.len());
        let excluded = match exclude {
            Some(x) => x == child,
            None => false,
        };
        if !excluded {
            if let BlockType::Section(_) = database.blocks[child].block_type {
                let ident = section_ident_text(database, child);
                if chars_eq(ident.as_slice(), name) {
                    proof {
                        assert(names_section(*database, ch[k as int] as int, name@, exclude));
                        let w = choose|w: int|
                            0 <= w < ch.len() && names_section(*database, #[trigger] ch[w] as int, name@, exclude) && forall|j: int|
                                0 <= j < w ==> !names_section(*database, ch[j] as int, name@, exclude);
                        if w < k {
                            assert(!names_section(*database, ch[w] as int, name@, exclude));
                        } else if w > k {
                            assert(!names_section(*database, ch[k as int] as int, name@, exclude));
                        }
                    }
                    return Some(child);
                }
            }
        }
        assert(!names_section(*database, ch[k as int] as int, name@, exclude));
        k = k + 1;
    }
    None
}

/// A direct child of `parent_id` that is a section with identifier `name`.
fn find_child_section(database: &Database, parent_id: BlockId, name: &[char]) -> (r: Option<BlockId>)
    requires
        database.wf_with(true),
        parent_id < database.blocks@.len(),
    ensures
        match first_child_named(*database, parent_id as int, name@, None) {
            Some(c) => r == Some(c as BlockId) && c < database.blocks@.len(),
            None => r is None,
        },
{
    find_child_named(database, parent_id, name, None)
}

/// A sibling of `block_id` that is a section with identifier `name`.
fn find_sibling_section(database: &Database, block_id: BlockId, name: &[char]) -> (r: Option<BlockId>)
    requires
        database.wf_with(true),
        block_id < database.blocks@.len(),
    ensures
        match sibling_named(*database, block_id as int, name@) {
            Some(c) => r == Some(c as BlockId) && c < database.blocks@.len(),
            None => r is None,
        },
{
    match database.blocks[block_id].parent_id {
        Some(parent_id) => {
            assert(database.blocks@[block_id as int] == database.blocks@[block_id as int]);
            find_child_named(database, parent_id, name, Some(block_id))
        },
        None => None,
    }
}

/// The identifiers of the sections from the root down to `block_id`,
/// joined by ` \ `.
fn build_section_path_string(database: &Database, block_id: BlockId) -> (out: Vec<char>)
    requires
        database.wf_with(true),
        block_id < database.blocks@.len(),
    ensures
        out@ == joined(ident_chain(*database, block_id as int)),
{
    let mut parts: Vec<Vec<char>> = Vec::new();
    let mut current = block_id;
    loop
        invariant
            database.wf_with(true),
            current < database.blocks@.len(),
            ident_chain(*database, block_id as int)
                == ident_chain(*database, current as int) + char_views(parts@).reverse(),
        ensures
            current < database.blocks@.len(),
            database.blocks@[current as int].parent_id is None,
            ident_chain(*database, block_id as int)
                == ident_chain(*database, current as int) + char_views(parts@).reverse(),
        decreases current,
    {
        match database.blocks[current].parent_id {
            Some(parent_id) => {
                assert(database.blocks@[current as int] == database.blocks@[current as int]);
                let ghost before = char_views(parts@);
                if let BlockType::Section(_) = database.blocks[current].block_type {
                    let ident = section_ident_text(database, current);
                    parts.push(ident);
                    proof {
                        let after = char_views(parts@);
                        assert(after =~= before.push(section_ident(*database, current as int)));
                        assert(after.reverse() =~= seq![section_ident(*database, current as int)] + before.reverse());
                        assert(ident_chain(*database, current as int) =~= ident_chain(*database, parent_id as int).push(section_ident(*database, current as int)));
                        assert(ident_chain(*database, parent_id as int).push(section_ident(*database, current as int)) + before.reverse()
                            =~= ident_chain(*database, parent_id as int) + after.reverse());
                    }
                } else {
                    assert(ident_chain(*database, current as int) == ident_chain(*database, parent_id as int));
                }
                current = parent_id;
            },
            None => {
                break;
            },
        }
    }
    let ghost views = char_views(parts@);
    let mut ordered: Vec<Vec<char>> = Vec::new();
    let mut i: usize = parts.len();
    while i > 0
        invariant
            0 <= i <= parts@.len(),
            views == char_views(parts@),
            char_views(ordered@) == views.skip(i as int).reverse(),
        decreases i,
    {
        i = i - 1;
        let piece = slice_chars(parts[i].as_slice(), 0, parts[i].len());
        let ghost before = char_views(ordered@);
        ordered.push(piece);
        proof {
            assert(piece@ =~= views[i as int]);
            assert(char_views(ordered@) =~= before.push(views[i as int]));
            assert(views.skip(i as int).reverse() =~= views.skip(i + 1).reverse().push(views[i as int]));
        }
    }
    assert(ident_chain(*database, current as int) =~= seq![]);
    assert(views.skip(0).reverse() =~= views.reverse());
    assert(ident_chain(*database, block_id as int) =~= views.reverse());
    join_path(&ordered)
}


/// Where a jump's written target leads.
pub enum Resolved {
    Target(BlockType),
    NotFound,
    AboveRoot,
}

/// The segments of a path: split at ` \ `, each trimmed.
pub open spec fn path_segments(p: Seq<char>) -> Seq<Seq<char>> {
    split_on(p, " \\ "@).map_values(|x: Seq<char>| trim(x))
}

/// `base \ rest`, or `rest` alone when `base` is empty.
pub open spec fn prefixed(base: Seq<char>, rest: Seq<char>) -> Seq<char> {
    if base.len() == 0 {
        rest
    } else {
        base + " \\ "@ + rest
    }
}

/// Climbs one section per leading `..` segment from `idx`; `None` when a
/// climb passes the root.
pub open spec fn climb(db: Database, cur: Option<BlockId>, segs: Seq<Seq<char>>, idx: int) -> Option<(Option<BlockId>, int)>
    decreases segs.len() - idx,
{
    if 0 <= idx < segs.len() && segs[idx] == ".."@ {
        match cur {
            Some(s) => match parent_section(db, s as int) {
                Some(p) => climb(db, Some(p as BlockId), segs, idx + 1),
                None => None,
            },
            None => None,
        }
    } else {
        Some((cur, idx))
    }
}

/// The section a relative first segment finds through block `c`: the
/// section itself for a one-segment path, else the whole path looked up.
pub open spec fn via_section(db: Database, reg: Seq<(String, SectionId)>, c: Option<int>, segs: Seq<Seq<char>>) -> Option<SectionId> {
    match c {
        None => None,
        Some(c) => match db.blocks@[c].block_type {
            BlockType::Section(sid) => if segs.len() == 1 {
                Some(sid)
            } else {
                registry_get(reg, joined(segs))
            },
            _ => registry_get(reg, joined(segs)),
        },
    }
}

/// The section a block names (when it is one).
pub open spec fn block_section(db: Database, b: Option<BlockId>) -> Resolved {
    match b {
        Some(sb) => match db.blocks@[sb as int].block_type {
            BlockType::Section(sid) => Resolved::Target(BlockType::GoTo(sid)),
            _ => Resolved::NotFound,
        },
        None => Resolved::NotFound,
    }
}

/// Where the jump written `path` leads from inside section `containing`.
///
/// `START`, `RESTART` and `END` are the special targets; `.` is the
/// containing section. A path that does not start with `..` is looked up
/// as an identifier path from the root, then its first segment among the
/// children of the containing section, then among its siblings. Each
/// leading `..` climbs one section (past the root is an error); what
/// follows is looked up under the section reached, then beside it.
pub open spec fn resolve_target(db: Database, reg: Seq<(String, SectionId)>, path: Seq<char>, containing: Option<BlockId>) -> Resolved {
    let p = trim(path);
    if p == "START"@ {
        Resolved::Target(BlockType::GoToStart)
    } else if p == "RESTART"@ {
        Resolved::Target(BlockType::GoToRestart)
    } else if p == "END"@ {
        Resolved::Target(BlockType::GoToEnd)
    } else if p == "."@ {
        block_section(db, containing)
    } else {
        let segs = path_segments(p);
        if !has_prefix(segs[0], ".."@) {
            match registry_get(reg, p) {
                Some(sid) => Resolved::Target(BlockType::GoTo(sid)),
                None => match containing {
                    None => Resolved::NotFound,
                    Some(b) => match via_section(db, reg, first_child_named(db, b as int, segs[0], None), segs) {
                        Some(sid) => Resolved::Target(BlockType::GoTo(sid)),
                        None => match via_section(db, reg, sibling_named(db, b as int, segs[0]), segs) {
                            Some(sid) => Resolved::Target(BlockType::GoTo(sid)),
                            None => Resolved::NotFound,
                        },
                    },
                },
            }
        } else {
            match climb(db, containing, segs, 0) {
                None => Resolved::AboveRoot,
                Some((cur, idx)) => if idx < segs.len() {
                    match cur {
                        None => Resolved::NotFound,
                        Some(sb) => {
                            let remaining = joined(segs.skip(idx));
                            match registry_get(reg, prefixed(joined(ident_chain(db, sb as int)), remaining)) {
                                Some(sid) => Resolved::Target(BlockType::GoTo(sid)),
                                None => {
                                    let parent_path = match parent_section(db, sb as int) {
                                        Some(pp) => joined(ident_chain(db, pp)),
                                        None => seq![],
                                    };
                                    match registry_get(reg, prefixed(parent_path, remaining)) {
                                        Some(sid) => Resolved::Target(BlockType::GoTo(sid)),
                                        None => Resolved::NotFound,
                                    }
                                },
                            }
                        },
                    }
                } else {
                    block_section(db, cur)
                },
            }
        }
    }
}

/// `a` and `b` hold the same blocks, sections and strings, apart from what
/// their jump blocks lead to.
pub open spec fn same_skeleton(a: Database, b: Database) -> bool {
    &&& a.blocks@.len() == b.blocks@.len()
    &&& a.sections == b.sections
    &&& a.strings == b.strings
    &&& forall|i: int|
        0 <= i < a.blocks@.len() ==> {
            &&& (#[trigger] a.blocks@[i]).parent_id == b.blocks@[i].parent_id
            &&& a.blocks@[i].children@ == b.blocks@[i].children@
            &&& (a.blocks@[i].block_type is Section <==> b.blocks@[i].block_type is Section)
            &&& (a.blocks@[i].block_type is Section ==> a.blocks@[i].block_type == b.blocks@[i].block_type)
        }
}

proof fn lemma_skeleton_block(a: Database, b: Database, x: int)
    requires
        same_skeleton(a, b),
    ensures
        is_section_block(a, x) == is_section_block(b, x),
        is_section_block(a, x) ==> section_ident(a, x) == section_ident(b, x)
            && a.blocks@[x].block_type == b.blocks@[x].block_type,
        0 <= x < a.blocks@.len() ==> a.blocks@[x].parent_id == b.blocks@[x].parent_id
            && a.blocks@[x].children@ == b.blocks@[x].children@,
{
    if 0 <= x < a.blocks@.len() {
        assert(a.blocks@[x].parent_id == b.blocks@[x].parent_id);
    }
}

proof fn lemma_parent_section_same(a: Database, b: Database, x: int)
    requires
        same_skeleton(a, b),
    ensures
        parent_section(a, x) == parent_section(b, x),
    decreases x,
{
    lemma_skeleton_block(a, b, x);
    if 0 <= x < a.blocks@.len() {
        if let Some(p) = a.blocks@[x].parent_id {
            if p < x {
                lemma_skeleton_block(a, b, p as int);
                lemma_parent_section_same(a, b, p as int);
            }
        }
    }
}

proof fn lemma_ident_chain_same(a: Database, b: Database, x: int)
    requires
        same_skeleton(a, b),
    ensures
        ident_chain(a, x) == ident_chain(b, x),
    decreases x,
{
    lemma_skeleton_block(a, b, x);
    if 0 <= x < a.blocks@.len() {
        if let Some(p) = a.blocks@[x].parent_id {
            if p < x {
                lemma_ident_chain_same(a, b, p as int);
            }
        }
    }
}

proof fn lemma_first_child_same(a: Database, b: Database, parent: int, name: Seq<char>, exclude: Option<BlockId>)
    requires
        same_skeleton(a, b),
        0 <= parent < a.blocks@.len(),
    ensures
        first_child_named(a, parent, name, exclude) == first_child_named(b, parent, name, exclude),
{
    lemma_skeleton_block(a, b, parent);
    let ch = a.blocks@[parent].children@;
    assert(ch == b.blocks@[parent].children@);
    assert forall|c: int| #[trigger] names_section(a, c, name, exclude) == names_section(b, c, name, exclude) by {
        lemma_skeleton_block(a, b, c);
    }
    if exists|k: int| 0 <= k < ch.len() && names_section(a, #[trigger] ch[k] as int, name, exclude) {
        let ka = choose|k: int|
            0 <= k < ch.len() && names_section(a, #[trigger] ch[k] as int, name, exclude) && forall|j: int|
                0 <= j < k ==> !names_section(a, ch[j] as int, name, exclude);
        let kb = choose|k: int|
            0 <= k < ch.len() && names_section(b, #[trigger] ch[k] as int, name, exclude) && forall|j: int|
                0 <= j < k ==> !names_section(b, ch[j] as int, name, exclude);
        let w = choose|k: int| 0 <= k < ch.len() && names_section(a, #[trigger] ch[k] as int, name, exclude);
        lemma_first_index_exists(a, ch, name, exclude, w);
        assert(names_section(b, ch[ka] as int, name, exclude));
        assert(exists|k: int| 0 <= k < ch.len() && names_section(b, #[trigger] ch[k] as int, name, exclude));
        assert(0 <= kb < ch.len() && names_section(b, ch[kb] as int, name, exclude));
        if ka < kb {
            assert(!names_section(b, ch[ka] as int, name, exclude));
        } else if kb < ka {
            assert(names_section(a, ch[kb] as int, name, exclude));
        }
    } else {
        assert forall|k: int| 0 <= k < ch.len() implies !names_section(b, #[trigger] ch[k] as int, name, exclude) by {
            assert(!names_section(a, ch[k] as int, name, exclude));
        }
    }
}

proof fn lemma_first_index_exists(db: Database, ch: Seq<BlockId>, name: Seq<char>, exclude: Option<BlockId>, w: int)
    requires
        0 <= w < ch.len(),
        names_section(db, ch[w] as int, name, exclude),
    ensures
        exists|k: int|
            0 <= k < ch.len() && names_section(db, #[trigger] ch[k] as int, name, exclude) && forall|j: int|
                0 <= j < k ==> !names_section(db, ch[j] as int, name, exclude),
    decreases w,
{
    if exists|j: int| 0 <= j < w && names_section(db, ch[j] as int, name, exclude) {
        let j = choose|j: int| 0 <= j < w && names_section(db, ch[j] as int, name, exclude);
        lemma_first_index_exists(db, ch, name, exclude, j);
    } else {
        assert(0 <= w < ch.len() && names_section(db, ch[w] as int, name, exclude) && forall|j: int|
            0 <= j < w ==> !names_section(db, ch[j] as int, name, exclude));
    }
}

proof fn lemma_climb_same(a: Database, b: Database, cur: Option<BlockId>, segs: Seq<Seq<char>>, idx: int)
    requires
        same_skeleton(a, b),
    ensures
        climb(a, cur, segs, idx) == climb(b, cur, segs, idx),
    decreases segs.len() - idx,
{
    if 0 <= idx < segs.len() && segs[idx] == ".."@ {
        if let Some(s) = cur {
            lemma_parent_section_same(a, b, s as int);
            if let Some(p) = parent_section(a, s as int) {
                lemma_climb_same(a, b, Some(p as BlockId), segs, idx + 1);
            }
        }
    }
}

proof fn lemma_via_same(a: Database, b: Database, reg: Seq<(String, SectionId)>, c: Option<int>, segs: Seq<Seq<char>>)
    requires
        same_skeleton(a, b),
        c matches Some(x) ==> 0 <= x < a.blocks@.len(),
    ensures
        via_section(a, reg, c, segs) == via_section(b, reg, c, segs),
{
    if let Some(x) = c {
        lemma_skeleton_block(a, b, x);
        assert(a.blocks@[x].block_type is Section <==> b.blocks@[x].block_type is Section);
    }
}

proof fn lemma_block_section_same(a: Database, b: Database, c: Option<BlockId>)
    requires
        same_skeleton(a, b),
        c matches Some(x) ==> x < a.blocks@.len(),
    ensures
        block_section(a, c) == block_section(b, c),
{
    if let Some(x) = c {
        lemma_skeleton_block(a, b, x as int);
    }
}

/// A section found among the children of `parent` lies in the database.
proof fn lemma_first_child_in(db: Database, parent: int, name: Seq<char>, exclude: Option<BlockId>)
    ensures
        first_child_named(db, parent, name, exclude) matches Some(x) ==> 0 <= x < db.blocks@.len(),
{
    let ch = db.blocks@[parent].children@;
    if exists|k: int| 0 <= k < ch.len() && names_section(db, #[trigger] ch[k] as int, name, exclude) {
        let w = choose|k: int| 0 <= k < ch.len() && names_section(db, #[trigger] ch[k] as int, name, exclude);
        lemma_first_index_exists(db, ch, name, exclude, w);
    }
}

proof fn lemma_parent_section_in(db: Database, x: int)
    ensures
        parent_section(db, x) matches Some(p) ==> 0 <= p < db.blocks@.len(),
    decreases x,
{
    if 0 <= x < db.blocks@.len() {
        if let Some(p) = db.blocks@[x].parent_id {
            if p < x {
                lemma_parent_section_in(db, p as int);
            }
        }
    }
}

proof fn lemma_climb_in(db: Database, cur: Option<BlockId>, segs: Seq<Seq<char>>, idx: int)
    requires
        cur matches Some(c) ==> c < db.blocks@.len(),
    ensures
        climb(db, cur, segs, idx) matches Some((c2, _)) ==> (c2 matches Some(x) ==> x < db.blocks@.len()),
    decreases segs.len() - idx,
{
    if 0 <= idx < segs.len() && segs[idx] == ".."@ {
        if let Some(s) = cur {
            lemma_parent_section_in(db, s as int);
            if let Some(p) = parent_section(db, s as int) {
                lemma_climb_in(db, Some(p as BlockId), segs, idx + 1);
            }
        }
    }
}

/// Where a jump leads depends on the database only through its sections
/// and tree, not on where other jumps lead.
#[verifier::rlimit(40)]
#[verifier::spinoff_prover]
proof fn lemma_resolve_same(
    a: Database,
    b: Database,
    reg: Seq<(String, SectionId)>,
    path: Seq<char>,
    containing: Option<BlockId>,
)
    requires
        same_skeleton(a, b),
        containing matches Some(c) ==> c < a.blocks@.len(),
        a.tree_wf(),
    ensures
        resolve_target(a, reg, path, containing) == resolve_target(b, reg, path, containing),
{
    let p = trim(path);
    let segs = path_segments(p);
    lemma_block_section_same(a, b, containing);
    if let Some(c) = containing {
        lemma_skeleton_block(a, b, c as int);
        lemma_first_child_same(a, b, c as int, segs[0], None);
        lemma_first_child_in(a, c as int, segs[0], None);
        lemma_via_same(a, b, reg, first_child_named(a, c as int, segs[0], None), segs);
        if let Some(pp) = a.blocks@[c as int].parent_id {
            if pp < a.blocks@.len() {
                lemma_first_child_same(a, b, pp as int, segs[0], Some(c));
            }
            lemma_first_child_in(a, pp as int, segs[0], Some(c));
        }
        assert(sibling_named(a, c as int, segs[0]) == sibling_named(b, c as int, segs[0]));
        lemma_via_same(a, b, reg, sibling_named(a, c as int, segs[0]), segs);
    }
    lemma_climb_same(a, b, containing, segs, 0);
    if let Some((cur, idx)) = climb(a, containing, segs, 0) {
        if let Some(sb) = cur {
            lemma_ident_chain_same(a, b, sb as int);
            lemma_parent_section_same(a, b, sb as int);
            if let Some(pp) = parent_section(a, sb as int) {
                lemma_ident_chain_same(a, b, pp);
            }
        }
        lemma_climb_in(a, containing, segs, 0);
        lemma_block_section_same(a, b, cur);
    }
}

proof fn lemma_resolve_registry_same(
    db: Database,
    a: Seq<(String, SectionId)>,
    b: Seq<(String, SectionId)>,
    path: Seq<char>,
    containing: Option<BlockId>,
)
    requires
        registry_views(a) == registry_views(b),
    ensures
        resolve_target(db, a, path, containing) == resolve_target(db, b, path, containing),
{
    assert forall|key: Seq<char>| #[trigger] registry_get(a, key) == registry_get(b, key) by {
        lemma_registry_from_same(a, b, key, 0);
    }
}

proof fn lemma_containing_in(db: Database, x: int)
    ensures
        containing_block(db, x) matches Some(c) ==> c < db.blocks@.len(),
{
    lemma_parent_section_in(db, x);
}

/// Whether `e` reports that the jump at block `j` of `db`, to the target
/// that `paths` records for it, resolves to nothing with `reg`, in `file`.
pub open spec fn jump_error(
    db: Database,
    reg: Seq<(String, SectionId)>,
    paths: Seq<(BlockId, String)>,
    j: int,
    file: Option<String>,
    e: ParseError,
) -> bool {
    match resolve_target(db, reg, path_for(paths, j), containing_block(db, j)) {
        Resolved::NotFound => e matches ParseError::SectionNotFound { path: p, file: f, line: l } && p@ == trim(
            path_for(paths, j),
        ) && f == file && l == db.blocks@[j].line,
        Resolved::AboveRoot => e matches ParseError::NavigationAboveRoot { file: f, line: l } && f == file && l
            == db.blocks@[j].line,
        Resolved::Target(_) => false,
    }
}

/// The jumps (blocks marked as jumps in `jdb`) among the first `n` blocks
/// whose targets resolve to nothing in `db` with `reg`, in order.
#[verifier::opaque]
pub open spec fn unresolved_jumps(
    jdb: Database,
    db: Database,
    reg: Seq<(String, SectionId)>,
    paths: Seq<(BlockId, String)>,
    n: int,
) -> Seq<int>
    decreases n,
{
    if n <= 0 {
        seq![]
    } else if jdb.blocks@[n - 1].block_type is GoTo && !(resolve_target(
        db,
        reg,
        path_for(paths, n - 1),
        containing_block(db, n - 1),
    ) is Target) {
        unresolved_jumps(jdb, db, reg, paths, n - 1).push(n - 1)
    } else {
        unresolved_jumps(jdb, db, reg, paths, n - 1)
    }
}

/// Whether `after` is `before` followed by one unresolved-jump error of
/// `file` for each block of `js`, in order.
#[verifier::opaque]
pub open spec fn reports_jumps(
    before: Seq<ParseError>,
    after: Seq<ParseError>,
    db: Database,
    reg: Seq<(String, SectionId)>,
    paths: Seq<(BlockId, String)>,
    file: Option<String>,
    js: Seq<int>,
) -> bool {
    &&& after.len() == before.len() + js.len()
    &&& after.subrange(0, before.len() as int) == before
    &&& forall|k: int| before.len() <= k < after.len() ==> jump_error(db, reg, paths, js[k - before.len()], file, #[trigger] after[k])
}

/// One more block looked at: the errors grow by the error of that block,
/// when it is a jump that resolves to nothing.
proof fn lemma_jump_step(
    m: Seq<ParseError>,
    e: Seq<ParseError>,
    after: Seq<ParseError>,
    db: Database,
    reg: Seq<(String, SectionId)>,
    paths: Seq<(BlockId, String)>,
    file: Option<String>,
    i: int,
    failed: bool,
)
    requires
        0 <= i,
        reports_jumps(m, e, db, reg, paths, file, unresolved_jumps(db, db, reg, paths, i)),
        failed == (db.blocks@[i].block_type is GoTo && !(resolve_target(db, reg, path_for(paths, i), containing_block(db, i)) is Target)),
        failed ==> after.len() == e.len() + 1 && after.drop_last() == e && jump_error(db, reg, paths, i, file, after.last()),
        !failed ==> after == e,
    ensures
        reports_jumps(m, after, db, reg, paths, file, unresolved_jumps(db, db, reg, paths, i + 1)),
{
    reveal(unresolved_jumps);
    if failed {
        assert(after == e.push(after.last()));
        lemma_jumps_push(e, after.last(), db, reg, paths, file, i);
        lemma_jumps_chain(m, e, after, db, reg, paths, file, unresolved_jumps(db, db, reg, paths, i), seq![i]);
        assert(unresolved_jumps(db, db, reg, paths, i + 1) == unresolved_jumps(db, db, reg, paths, i).push(i));
        assert(unresolved_jumps(db, db, reg, paths, i).push(i) =~= unresolved_jumps(db, db, reg, paths, i) + seq![i]);
    }
}

proof fn lemma_unresolved_empty(db: Database, reg: Seq<(String, SectionId)>, paths: Seq<(BlockId, String)>, n: int)
    requires
        forall|j: int| 0 <= j < n && (db.blocks@[j].block_type is GoTo) ==> (#[trigger] resolve_target(
            db,
            reg,
            path_for(paths, j),
            containing_block(db, j),
        )) is Target,
    ensures
        unresolved_jumps(db, db, reg, paths, n) == Seq::<int>::empty(),
    decreases n,
{
    reveal(unresolved_jumps);
    if n > 0 {
        lemma_unresolved_empty(db, reg, paths, n - 1);
    }
}

proof fn lemma_jumps_start(m: Seq<ParseError>, db: Database, reg: Seq<(String, SectionId)>, paths: Seq<(BlockId, String)>, file: Option<String>)
    ensures
        reports_jumps(m, m, db, reg, paths, file, unresolved_jumps(db, db, reg, paths, 0)),
{
    reveal(unresolved_jumps);
    lemma_jumps_none(m, db, reg, paths, file);
}

proof fn lemma_jumps_none(e: Seq<ParseError>, db: Database, reg: Seq<(String, SectionId)>, paths: Seq<(BlockId, String)>, file: Option<String>)
    ensures
        reports_jumps(e, e, db, reg, paths, file, seq![]),
{
    reveal(reports_jumps);
    assert(e.subrange(0, e.len() as int) =~= e);
}

proof fn lemma_jumps_push(
    e: Seq<ParseError>,
    x: ParseError,
    db: Database,
    reg: Seq<(String, SectionId)>,
    paths: Seq<(BlockId, String)>,
    file: Option<String>,
    j: int,
)
    requires
        jump_error(db, reg, paths, j, file, x),
    ensures
        reports_jumps(e, e.push(x), db, reg, paths, file, seq![j]),
{
    reveal(reports_jumps);
    assert(e.push(x).subrange(0, e.len() as int) =~= e);
}

proof fn lemma_jumps_chain(
    a: Seq<ParseError>,
    b: Seq<ParseError>,
    c: Seq<ParseError>,
    db: Database,
    reg: Seq<(String, SectionId)>,
    paths: Seq<(BlockId, String)>,
    file: Option<String>,
    l1: Seq<int>,
    l2: Seq<int>,
)
    requires
        reports_jumps(a, b, db, reg, paths, file, l1),
        reports_jumps(b, c, db, reg, paths, file, l2),
    ensures
        reports_jumps(a, c, db, reg, paths, file, l1 + l2),
{
    reveal(reports_jumps);
    assert forall|k: int| a.len() <= k < c.len() implies jump_error(db, reg, paths, (l1 + l2)[k - a.len()], file, #[trigger] c[k]) by {
        if k < b.len() {
            assert(c.subrange(0, b.len() as int)[k] == c[k]);
            assert(b[k] == c[k]);
        } else {
            assert((l1 + l2)[k - a.len()] == l2[k - b.len()]);
        }
    }
    assert(c.subrange(0, a.len() as int) =~= a) by {
        assert forall|k: int| 0 <= k < a.len() implies c[k] == a[k] by {
            assert(c.subrange(0, b.len() as int)[k] == c[k]);
            assert(b.subrange(0, a.len() as int)[k] == b[k]);
        }
    }
}

/// Whether `after` is `before` followed by what validating `db0` reports
/// (`db` being `db0` with its jumps resolved): the invalid section names,
/// then (when nothing was wrong before) the empty sections, then the jumps
/// that resolve to nothing.
pub open spec fn validation_reported(
    before: Seq<ParseError>,
    after: Seq<ParseError>,
    db0: Database,
    db: Database,
    paths: Seq<(BlockId, String)>,
    file: Option<String>,
) -> bool {
    exists|m1: Seq<ParseError>, m2: Seq<ParseError>| #[trigger] validation_split(before, after, db0, db, paths, file, m1, m2)
}

/// [`validation_reported`] with the errors `m1` after the names are
/// checked and `m2` after the empty sections are.
pub open spec fn validation_split(
    before: Seq<ParseError>,
    after: Seq<ParseError>,
    db0: Database,
    db: Database,
    paths: Seq<(BlockId, String)>,
    file: Option<String>,
    m1: Seq<ParseError>,
    m2: Seq<ParseError>,
) -> bool {
    let n = db0.blocks@.len() as int;
    &&& reports_names(before, m1, file, section_name_items(db0, n))
    &&& if m1.len() == 0 {
        reports_empty(m1, m2, db0, file, empty_section_blocks(db0, n))
    } else {
        m2 == m1
    }
    &&& reports_jumps(m2, after, db, db.section_registry@, paths, file, unresolved_jumps(db0, db, db.section_registry@, paths, n))
}

/// Which jumps resolve to nothing carries over to a database with the
/// same skeleton.
proof fn lemma_unresolved_move(
    a: Database,
    b: Database,
    jb: Database,
    reg: Seq<(String, SectionId)>,
    paths: Seq<(BlockId, String)>,
    n: int,
)
    requires
        0 <= n <= a.blocks@.len(),
        same_skeleton(a, b),
        a.tree_wf(),
        jb.blocks == a.blocks,
    ensures
        unresolved_jumps(a, a, reg, paths, n) == unresolved_jumps(jb, b, reg, paths, n),
    decreases n,
{
    reveal(unresolved_jumps);
    if n > 0 {
        let g = n - 1;
        lemma_unresolved_move(a, b, jb, reg, paths, g);
        lemma_containing_same(a, b, g);
        lemma_containing_in(a, g);
        lemma_resolve_same(a, b, reg, path_for(paths, g), containing_block(a, g));
    }
}

/// The errors of unresolved jumps carry over to a database with the same
/// skeleton and lines.
proof fn lemma_jumps_move(
    before: Seq<ParseError>,
    after: Seq<ParseError>,
    a: Database,
    b: Database,
    reg: Seq<(String, SectionId)>,
    paths: Seq<(BlockId, String)>,
    file: Option<String>,
    js: Seq<int>,
)
    requires
        same_skeleton(a, b),
        a.tree_wf(),
        forall|k: int| 0 <= k < js.len() ==> 0 <= #[trigger] js[k] < a.blocks@.len(),
        forall|j: int| 0 <= j < a.blocks@.len() ==> (#[trigger] a.blocks@[j]).line == b.blocks@[j].line,
        reports_jumps(before, after, a, reg, paths, file, js),
    ensures
        reports_jumps(before, after, b, reg, paths, file, js),
{
    reveal(reports_jumps);
    assert forall|k: int| before.len() <= k < after.len() implies jump_error(b, reg, paths, js[k - before.len()], file, #[trigger] after[k]) by {
        let j = js[k - before.len()];
        assert(0 <= j < a.blocks@.len());
        lemma_containing_same(a, b, j);
        lemma_containing_in(a, j);
        lemma_resolve_same(a, b, reg, path_for(paths, j), containing_block(a, j));
        assert(jump_error(a, reg, paths, j, file, after[k]));
        assert(a.blocks@[j].line == b.blocks@[j].line);
    }
}

proof fn lemma_unresolved_in(db: Database, reg: Seq<(String, SectionId)>, paths: Seq<(BlockId, String)>, n: int, k: int)
    requires
        0 <= n <= db.blocks@.len(),
        0 <= k < unresolved_jumps(db, db, reg, paths, n).len(),
    ensures
        0 <= unresolved_jumps(db, db, reg, paths, n)[k] < n,
    decreases n,
{
    reveal(unresolved_jumps);
    if n > 0 && k < unresolved_jumps(db, db, reg, paths, n - 1).len() {
        lemma_unresolved_in(db, reg, paths, n - 1, k);
    }
}

/// Resolutions made against `db0` hold of `db`, which has the same
/// skeleton and records a registry with the same entries.
proof fn lemma_resolutions_carry(
    db0: Database,
    db: Database,
    reg: Seq<(String, SectionId)>,
    paths: Seq<(BlockId, String)>,
)
    requires
        same_skeleton(db, db0),
        db.tree_wf(),
        registry_views(reg) == registry_views(db.section_registry@),
        forall|j: int|
            0 <= j < db0.blocks@.len() && (db0.blocks@[j].block_type is GoTo) ==> resolve_target(
                db0,
                reg,
                path_for(paths, j),
                containing_block(db0, j),
            ) == Resolved::Target((#[trigger] db.blocks@[j]).block_type),
    ensures
        forall|j: int|
            0 <= j < db0.blocks@.len() && (db0.blocks@[j].block_type is GoTo) ==> resolve_target(
                db,
                db.section_registry@,
                path_for(paths, j),
                containing_block(db, j),
            ) == Resolved::Target((#[trigger] db.blocks@[j]).block_type),
{
    assert forall|j: int| 0 <= j < db0.blocks@.len() && (db0.blocks@[j].block_type is GoTo) implies resolve_target(
        db,
        db.section_registry@,
        path_for(paths, j),
        containing_block(db, j),
    ) == Resolved::Target((#[trigger] db.blocks@[j]).block_type) by {
        lemma_containing_same(db, db0, j);
        lemma_containing_in(db, j);
        lemma_resolve_same(db, db0, reg, path_for(paths, j), containing_block(db, j));
        lemma_resolve_registry_same(db, reg, db.section_registry@, path_for(paths, j), containing_block(db, j));
    }
}

proof fn lemma_containing_same(a: Database, b: Database, x: int)
    requires
        same_skeleton(a, b),
    ensures
        containing_section(a, x) == containing_section(b, x),
{
    lemma_skeleton_block(a, b, x);
    lemma_parent_section_same(a, b, x);
}

fn prefixed_text(base: &[char], rest: &[char]) -> (out: Vec<char>)
    ensures
        out@ == prefixed(base@, rest@),
{
    if base.len() == 0 {
        slice_chars(rest, 0, rest.len())
    } else {
        let sep = chars_of(" \\ ");
        let mut out = concat_chars(base, sep.as_slice());
        push_all(&mut out, rest);
        out
    }
}

proof fn lemma_registry_from_ok(reg: Seq<(String, SectionId)>, db: Database, key: Seq<char>, k: int)
    requires
        registry_ok(reg, db),
        0 <= k,
    ensures
        registry_from(reg, key, k) matches Some(sid) ==> sid < db.sections@.len(),
    decreases reg.len() - k,
{
    if k < reg.len() && reg[k].0@ != key {
        lemma_registry_from_ok(reg, db, key, k + 1);
    }
}

proof fn lemma_registry_get_ok(reg: Seq<(String, SectionId)>, db: Database, key: Seq<char>)
    requires
        registry_ok(reg, db),
    ensures
        registry_get(reg, key) matches Some(sid) ==> sid < db.sections@.len(),
{
    lemma_registry_from_ok(reg, db, key, 0);
}

/// The trimmed segments of a path.
fn path_segments_of(p: &[char]) -> (segments: Vec<Vec<char>>)
    ensures
        char_views(segments@) == path_segments(p@),
        segments@.len() >= 1,
{
    let sep = chars_of(" \\ ");
    proof {
        reveal_strlit(" \\ ");
    }
    let pieces = crate::text::split_chars(p, sep.as_slice());
    let mut segments: Vec<Vec<char>> = Vec::new();
    let mut i: usize = 0;
    while i < pieces.len()
        invariant
            0 <= i <= pieces@.len(),
            pieces@.len() == split_on(p@, sep@).len(),
            forall|k: int| 0 <= k < pieces@.len() ==> #[trigger] pieces@[k]@ == split_on(p@, sep@)[k],
            segments@.len() == i,
            forall|k: int| 0 <= k < i ==> #[trigger] segments@[k]@ == trim(split_on(p@, sep@)[k]),
        decreases pieces.len() - i,
    {
        segments.push(trim_chars(pieces[i].as_slice()));
        i = i + 1;
    }
    assert(sep@ == " \\ "@);
    assert(char_views(segments@) =~= path_segments(p@));
    segments
}

/// Copies of `segments[from..]`.
fn segments_from(segments: &Vec<Vec<char>>, from: usize) -> (rest: Vec<Vec<char>>)
    requires
        from <= segments@.len(),
    ensures
        char_views(rest@) == char_views(segments@).skip(from as int),
{
    let ghost segs = char_views(segments@);
    let mut rest: Vec<Vec<char>> = Vec::new();
    let mut k = from;
    while k < segments.len()
        invariant
            from <= k <= segments@.len(),
            segs == char_views(segments@),
            char_views(rest@) == segs.subrange(from as int, k as int),
        decreases segments.len() - k,
    {
        let ghost before = char_views(rest@);
        let piece = slice_chars(segments[k].as_slice(), 0, segments[k].len());
        assert(piece@ =~= segs[k as int]);
        rest.push(piece);
        assert(char_views(rest@) =~= before.push(segs[k as int]));
        assert(segs.subrange(from as int, k + 1) =~= segs.subrange(from as int, k as int).push(segs[k as int]));
        k = k + 1;
    }
    assert(segs.subrange(from as int, segs.len() as int) =~= segs.skip(from as int));
    rest
}

/// The section found through block `c` (see [`via_section`]).
fn via_section_exec(database: &Database, registry: &Vec<(String, SectionId)>, c: Option<BlockId>, segments: &Vec<Vec<char>>, full_path: &[char]) -> (r: Option<SectionId>)
    requires
        database.wf_with(true),
        c matches Some(b) ==> b < database.blocks@.len(),
        full_path@ == joined(char_views(segments@)),
    ensures
        r == via_section(*database, registry@, match c { Some(b) => Some(b as int), None => None }, char_views(segments@)),
{
    match c {
        None => None,
        Some(b) => {
            if segments.len() == 1 {
                if let Some(section_id) = get_section_id(database, b) {
                    return Some(section_id);
                }
            }
            registry_lookup(registry, full_path)
        },
    }
}

/// Climbs one section per leading `..` segment (see [`climb`]).
fn climb_sections(database: &Database, containing: Option<BlockId>, segments: &Vec<Vec<char>>) -> (r: Option<(Option<BlockId>, usize)>)
    requires
        database.wf_with(true),
        containing matches Some(b) ==> b < database.blocks@.len(),
    ensures
        match r {
            Some((cur, idx)) => climb(*database, containing, char_views(segments@), 0) == Some((cur, idx as int))
                && (cur matches Some(b) ==> b < database.blocks@.len()) && idx <= segments@.len(),
            None => climb(*database, containing, char_views(segments@), 0) is None,
        },
{
    let ghost segs = char_views(segments@);
    let dotdot = chars_of("..");
    let mut current = containing;
    let mut index: usize = 0;
    while index < segments.len() && chars_eq(segments[index].as_slice(), dotdot.as_slice())
        invariant
            database.wf_with(true),
            0 <= index <= segments@.len(),
            segs == char_views(segments@),
            dotdot@ == ".."@,
            current matches Some(b) ==> b < database.blocks@.len(),
            climb(*database, containing, segs, 0) == climb(*database, current, segs, index as int),
        decreases segments.len() - index,
    {
        assert(segs[index as int] == segments@[index as int]@);
        match current {
            Some(b) => {
                current = find_parent_section(database, b);
                if current.is_none() {
                    return None;
                }
            },
            None => {
                return None;
            },
        }
        index = index + 1;
    }
    if index < segments.len() {
        assert(segs[index as int] == segments@[index as int]@);
    }
    Some((current, index))
}

impl Parser {
    /// Resolves the jump written `path` (see [`resolve_target`]); a target
    /// that is not found, or a climb past the root, is reported at `line`.
    fn resolve_path(
        &self,
        path: &[char],
        containing_section: Option<BlockId>,
        registry: &Vec<(String, SectionId)>,
        database: &Database,
        line: usize,
    ) -> (r: Result<BlockType, ParseError>)
        requires
            database.wf_with(true),
            containing_section matches Some(b) ==> b < database.blocks@.len(),
            registry_ok(registry@, *database),
        ensures
            match resolve_target(*database, registry@, path@, containing_section) {
                Resolved::Target(t) => r == Ok::<BlockType, ParseError>(t) && database.type_refs_ok(t, false),
                Resolved::NotFound => r matches Err(ParseError::SectionNotFound { path: p, file, line: l })
                    && p@ == trim(path@) && file == self.file_path && l == line,
                Resolved::AboveRoot => r matches Err(ParseError::NavigationAboveRoot { file, line: l })
                    && file == self.file_path && l == line,
            },
    {
        let p = trim_chars(path);
        let start = chars_of("START");
        let restart = chars_of("RESTART");
        let end = chars_of("END");
        let dot = chars_of(".");
        if chars_eq(p.as_slice(), start.as_slice()) {
            return Ok(BlockType::GoToStart);
        }
        if chars_eq(p.as_slice(), restart.as_slice()) {
            return Ok(BlockType::GoToRestart);
        }
        if chars_eq(p.as_slice(), end.as_slice()) {
            return Ok(BlockType::GoToEnd);
        }
        let not_found = ParseError::SectionNotFound {
            path: string_from_chars(p.as_slice()),
            file: self.file_path.clone(),
            line,
        };
        if chars_eq(p.as_slice(), dot.as_slice()) {
            if let Some(section_block_id) = containing_section {
                if let BlockType::Section(section_id) = database.blocks[section_block_id].block_type {
                    assert(database.blocks@[section_block_id as int] == database.blocks@[section_block_id as int]);
                    return Ok(BlockType::GoTo(section_id));
                }
            }
            return Err(not_found);
        }
        let segments = path_segments_of(p.as_slice());
        let dotdot = chars_of("..");
        if !starts_with(segments[0].as_slice(), dotdot.as_slice()) {
            match self.resolve_relative(p.as_slice(), &segments, containing_section, registry, database) {
                Some(t) => Ok(t),
                None => Err(not_found),
            }
        } else {
            match climb_sections(database, containing_section, &segments) {
                None => Err(ParseError::NavigationAboveRoot { file: self.file_path.clone(), line }),
                Some((current, index)) => match self.resolve_below(&segments, current, index, registry, database) {
                    Some(t) => Ok(t),
                    None => Err(not_found),
                },
            }
        }
    }

    /// A path that does not climb: from the root, then among the children
    /// and siblings of the containing section.
    #[verifier::spinoff_prover]
    #[verifier::rlimit(40)]
    fn resolve_relative(
        &self,
        p: &[char],
        segments: &Vec<Vec<char>>,
        containing_section: Option<BlockId>,
        registry: &Vec<(String, SectionId)>,
        database: &Database,
    ) -> (r: Option<BlockType>)
        requires
            database.wf_with(true),
            containing_section matches Some(b) ==> b < database.blocks@.len(),
            registry_ok(registry@, *database),
            segments@.len() >= 1,
        ensures
            ({
                let segs = char_views(segments@);
                match registry_get(registry@, p@) {
                    Some(sid) => r == Some(BlockType::GoTo(sid)),
                    None => match containing_section {
                        None => r is None,
                        Some(b) => match via_section(*database, registry@, first_child_named(*database, b as int, segs[0], None), segs) {
                            Some(sid) => r == Some(BlockType::GoTo(sid)),
                            None => match via_section(*database, registry@, sibling_named(*database, b as int, segs[0]), segs) {
                                Some(sid) => r == Some(BlockType::GoTo(sid)),
                                None => r is None,
                            },
                        },
                    },
                }
            }),
            r matches Some(t) ==> database.type_refs_ok(t, false),
    {
        let ghost segs = char_views(segments@);
        assert(segs[0] == segments@[0]@);
        if let Some(section_id) = registry_lookup(registry, p) {
            proof {
                lemma_registry_get_ok(registry@, *database, p@);
            }
            return Some(BlockType::GoTo(section_id));
        }
        if let Some(section_block_id) = containing_section {
            let full_path = join_path(segments);
            proof {
                lemma_registry_get_ok(registry@, *database, full_path@);
            }
            let child = find_child_section(database, section_block_id, segments[0].as_slice());
            if let Some(section_id) = via_section_exec(database, registry, child, segments, full_path.as_slice()) {
                return Some(BlockType::GoTo(section_id));
            }
            let sibling = find_sibling_section(database, section_block_id, segments[0].as_slice());
            if let Some(section_id) = via_section_exec(database, registry, sibling, segments, full_path.as_slice()) {
                return Some(BlockType::GoTo(section_id));
            }
        }
        None
    }

    /// What follows the climb: looked up under the section reached, then
    /// beside it; with nothing left, the section reached itself.
    fn resolve_below(
        &self,
        segments: &Vec<Vec<char>>,
        current: Option<BlockId>,
        index: usize,
        registry: &Vec<(String, SectionId)>,
        database: &Database,
    ) -> (r: Option<BlockType>)
        requires
            database.wf_with(true),
            current matches Some(b) ==> b < database.blocks@.len(),
            registry_ok(registry@, *database),
            index <= segments@.len(),
        ensures
            ({
                let segs = char_views(segments@);
                if index < segs.len() {
                    match current {
                        None => r is None,
                        Some(sb) => {
                            let remaining = joined(segs.skip(index as int));
                            match registry_get(registry@, prefixed(joined(ident_chain(*database, sb as int)), remaining)) {
                                Some(sid) => r == Some(BlockType::GoTo(sid)),
                                None => {
                                    let parent_path = match parent_section(*database, sb as int) {
                                        Some(pp) => joined(ident_chain(*database, pp)),
                                        None => seq![],
                                    };
                                    match registry_get(registry@, prefixed(parent_path, remaining)) {
                                        Some(sid) => r == Some(BlockType::GoTo(sid)),
                                        None => r is None,
                                    }
                                },
                            }
                        },
                    }
                } else {
                    match block_section(*database, current) {
                        Resolved::Target(t) => r == Some(t),
                        _ => r is None,
                    }
                }
            }),
            r matches Some(t) ==> database.type_refs_ok(t, false),
    {
        if index < segments.len() {
            if let Some(section_block_id) = current {
                let rest = segments_from(segments, index);
                let remaining = join_path(&rest);
                let current_path = build_section_path_string(database, section_block_id);
                let child_full_path = prefixed_text(current_path.as_slice(), remaining.as_slice());
                proof {
                    lemma_registry_get_ok(registry@, *database, child_full_path@);
                }
                if let Some(section_id) = registry_lookup(registry, child_full_path.as_slice()) {
                    return Some(BlockType::GoTo(section_id));
                }
                let ghost expected = match parent_section(*database, section_block_id as int) {
                    Some(pp) => joined(ident_chain(*database, pp)),
                    None => seq![],
                };
                let parent_path: Vec<char> = match find_parent_section(database, section_block_id) {
                    Some(parent_id) => build_section_path_string(database, parent_id),
                    None => {
                        let empty: Vec<char> = Vec::new();
                        assert(empty@ =~= seq![]);
                        empty
                    },
                };
                assert(parent_path@ == expected);
                let sibling_full_path = prefixed_text(parent_path.as_slice(), remaining.as_slice());
                proof {
                    lemma_registry_get_ok(registry@, *database, sibling_full_path@);
                }
                if let Some(section_id) = registry_lookup(registry, sibling_full_path.as_slice()) {
                    return Some(BlockType::GoTo(section_id));
                }
            }
            None
        } else {
            if let Some(section_block_id) = current {
                if let BlockType::Section(section_id) = database.blocks[section_block_id].block_type {
                    assert(database.blocks@[section_block_id as int] == database.blocks@[section_block_id as int]);
                    return Some(BlockType::GoTo(section_id));
                }
            }
            None
        }
    }
}

// ---------------------------------------------------------------------------
// Checks after reading
// ---------------------------------------------------------------------------

/// A block kind that counts as content of a section.
pub open spec fn is_content(t: BlockType) -> bool {
    match t {
        BlockType::String(_) | BlockType::GoTo(_) | BlockType::GoToAndBack(_) | BlockType::GoToStart
        | BlockType::GoToRestart | BlockType::GoToEnd | BlockType::SetVariable { .. }
        | BlockType::RequireVariable { .. } => true,
        _ => false,
    }
}

/// A jump kind.
pub open spec fn is_jump(t: BlockType) -> bool {
    match t {
        BlockType::GoTo(_) | BlockType::GoToAndBack(_) | BlockType::GoToStart | BlockType::GoToRestart
        | BlockType::GoToEnd => true,
        _ => false,
    }
}

/// Whether the children of `b` from the `k`-th on hold content, directly or
/// in a sub-section.
pub open spec fn content_from(db: Database, b: int, k: int) -> bool
    decreases db.blocks@.len() - b, db.blocks@[b].children@.len() - k,
{
    if 0 <= b < db.blocks@.len() && 0 <= k < db.blocks@[b].children@.len() {
        let c = db.blocks@[b].children@[k] as int;
        if b < c < db.blocks@.len() {
            if is_content(db.blocks@[c].block_type) {
                true
            } else if db.blocks@[c].block_type is Section && content_from(db, c, 0) {
                true
            } else {
                content_from(db, b, k + 1)
            }
        } else {
            content_from(db, b, k + 1)
        }
    } else {
        false
    }
}

proof fn lemma_content_same_blocks(a: Database, d: Database, b: int, k: int)
    requires
        a.blocks == d.blocks,
    ensures
        content_from(a, b, k) == content_from(d, b, k),
    decreases a.blocks@.len() - b, a.blocks@[b].children@.len() - k,
{
    if 0 <= b < a.blocks@.len() && 0 <= k < a.blocks@[b].children@.len() {
        let c = a.blocks@[b].children@[k] as int;
        if b < c < a.blocks@.len() {
            lemma_content_same_blocks(a, d, c, 0);
        }
        lemma_content_same_blocks(a, d, b, k + 1);
    }
}

proof fn lemma_content_same_kinds(a: Database, d: Database, b: int, k: int)
    requires
        a.blocks@.len() == d.blocks@.len(),
        forall|i: int| 0 <= i < a.blocks@.len() ==> {
            &&& (#[trigger] a.blocks@[i]).children@ == d.blocks@[i].children@
            &&& (a.blocks@[i].block_type is Section <==> d.blocks@[i].block_type is Section)
            &&& is_content(a.blocks@[i].block_type) == is_content(d.blocks@[i].block_type)
        },
    ensures
        content_from(a, b, k) == content_from(d, b, k),
    decreases a.blocks@.len() - b, a.blocks@[b].children@.len() - k,
{
    if 0 <= b < a.blocks@.len() && 0 <= k < a.blocks@[b].children@.len() {
        assert(a.blocks@[b].children@ == d.blocks@[b].children@);
        let c = a.blocks@[b].children@[k] as int;
        if b < c < a.blocks@.len() {
            assert(a.blocks@[c].children@ == d.blocks@[c].children@);
            lemma_content_same_kinds(a, d, c, 0);
        }
        lemma_content_same_kinds(a, d, b, k + 1);
    }
}

proof fn lemma_resolutions_back(
    db0: Database,
    db: Database,
    reg: Seq<(String, SectionId)>,
    paths: Seq<(BlockId, String)>,
)
    requires
        same_skeleton(db, db0),
        db.tree_wf(),
        registry_views(reg) == registry_views(db.section_registry@),
        forall|j: int|
            0 <= j < db0.blocks@.len() && (db0.blocks@[j].block_type is GoTo) ==> (#[trigger] resolve_target(
                db,
                db.section_registry@,
                path_for(paths, j),
                containing_block(db, j),
            )) is Target,
    ensures
        forall|j: int|
            0 <= j < db0.blocks@.len() && (db0.blocks@[j].block_type is GoTo) ==> (#[trigger] resolve_target(
                db0,
                reg,
                path_for(paths, j),
                containing_block(db0, j),
            )) is Target,
{
    assert forall|j: int| 0 <= j < db0.blocks@.len() && (db0.blocks@[j].block_type is GoTo) implies (#[trigger] resolve_target(
        db0,
        reg,
        path_for(paths, j),
        containing_block(db0, j),
    )) is Target by {
        assert(resolve_target(db, db.section_registry@, path_for(paths, j), containing_block(db, j)) is Target);
        lemma_containing_same(db, db0, j);
        lemma_containing_in(db, j);
        lemma_resolve_same(db, db0, reg, path_for(paths, j), containing_block(db, j));
        lemma_resolve_registry_same(db, reg, db.section_registry@, path_for(paths, j), containing_block(db, j));
    }
}

/// Whether section block `b` holds content, directly or in a sub-section.
pub open spec fn has_content(db: Database, b: int) -> bool {
    content_from(db, b, 0)
}

/// Scanning the children of `b` from the `k`-th on, having seen a jump or
/// a jump-only sub-section already when `seen`: whether they hold nothing
/// but jumps (and at least one).
pub open spec fn only_jumps_from(db: Database, b: int, k: int, seen: bool) -> bool
    decreases db.blocks@.len() - b, db.blocks@[b].children@.len() - k,
{
    if 0 <= b < db.blocks@.len() && 0 <= k < db.blocks@[b].children@.len() {
        let c = db.blocks@[b].children@[k] as int;
        if b < c < db.blocks@.len() {
            let t = db.blocks@[c].block_type;
            if t is String || t is SetVariable || t is RequireVariable {
                false
            } else if is_jump(t) {
                only_jumps_from(db, b, k + 1, true)
            } else if t is Section {
                if !only_jumps_from(db, c, 0, false) {
                    false
                } else {
                    only_jumps_from(db, b, k + 1, true)
                }
            } else {
                only_jumps_from(db, b, k + 1, seen)
            }
        } else {
            only_jumps_from(db, b, k + 1, seen)
        }
    } else {
        seen
    }
}

/// A name a section may not take.
pub open spec fn is_reserved_name(name: Seq<char>) -> bool {
    name == "END"@ || name == "START"@ || name == "RESTART"@
}

/// Whether a section name (or identifier) is acceptable.
pub open spec fn section_name_ok(name: Seq<char>) -> bool {
    !is_reserved_name(name) && !name.contains('\\')
}

/// The messages of the errors a section name (or identifier) `n` gets,
/// `label` naming what it is: one when it is reserved, one when it holds a
/// backslash.
pub open spec fn name_problem_messages(label: Seq<char>, n: Seq<char>) -> Seq<Seq<char>> {
    (if is_reserved_name(n) {
        seq![label + " \""@ + n + "\" is reserved"@]
    } else {
        seq![]
    }) + (if n.contains('\\') {
        seq![label + "s cannot contain '\\' character"@]
    } else {
        seq![]
    })
}

/// The errors (message, name, line) that the name `n` of a section at
/// `line` gets.
pub open spec fn name_items(label: Seq<char>, n: Seq<char>, line: usize) -> Seq<(Seq<char>, Seq<char>, usize)> {
    name_problem_messages(label, n).map_values(|m: Seq<char>| (m, n, line))
}

/// The name errors (message, name, line) of the sections among the first
/// `n` blocks of `db`, in order: for each, its name, then its own
/// identifier.
pub open spec fn section_name_items(db: Database, n: int) -> Seq<(Seq<char>, Seq<char>, usize)>
    decreases n,
{
    if n <= 0 {
        seq![]
    } else {
        let b = db.blocks@[n - 1];
        section_name_items(db, n - 1) + match b.block_type {
            BlockType::Section(sid) => {
                let sec = db.sections@[sid as int];
                name_items("Section name"@, db.strings@[sec.name as int]@, b.line) + if sec.id != sec.name {
                    name_items("Section id"@, db.strings@[sec.id as int]@, b.line)
                } else {
                    seq![]
                }
            },
            _ => seq![],
        }
    }
}

/// Whether `after` is `before` followed by one invalid-name error of `file`
/// for each of `items` (message, name, line), in order.
pub open spec fn reports_names(before: Seq<ParseError>, after: Seq<ParseError>, file: Option<String>, items: Seq<(Seq<char>, Seq<char>, usize)>) -> bool {
    &&& after.len() == before.len() + items.len()
    &&& after.subrange(0, before.len() as int) == before
    &&& forall|k: int| before.len() <= k < after.len() ==> {
        &&& (#[trigger] after[k]) matches ParseError::InvalidSectionName { message, name, file: f, line }
        &&& message@ == items[k - before.len()].0
        &&& name@ == items[k - before.len()].1
        &&& f == file
        &&& line == items[k - before.len()].2
    }
}

proof fn lemma_name_items_same(a: Database, b: Database, n: int)
    requires
        a.blocks == b.blocks,
        a.sections == b.sections,
        a.strings == b.strings,
    ensures
        section_name_items(a, n) == section_name_items(b, n),
    decreases n,
{
    if n > 0 {
        lemma_name_items_same(a, b, n - 1);
    }
}

/// Empty sections, and their errors, depend only on the blocks, sections
/// and strings.
proof fn lemma_empty_move(before: Seq<ParseError>, after: Seq<ParseError>, a: Database, b: Database, file: Option<String>, n: int)
    requires
        a.blocks == b.blocks,
        a.sections == b.sections,
        a.strings == b.strings,
        reports_empty(before, after, a, file, empty_section_blocks(a, n)),
    ensures
        empty_section_blocks(a, n) == empty_section_blocks(b, n),
        reports_empty(before, after, b, file, empty_section_blocks(b, n)),
    decreases n,
{
    lemma_empty_blocks_same(a, b, n);
    let bs = empty_section_blocks(a, n);
    assert forall|k: int| before.len() <= k < after.len() implies empty_section_error(b, bs[k - before.len()], file, #[trigger] after[k]) by {
        assert(empty_section_error(a, bs[k - before.len()], file, after[k]));
    }
}

proof fn lemma_empty_blocks_same(a: Database, b: Database, n: int)
    requires
        a.blocks == b.blocks,
    ensures
        empty_section_blocks(a, n) == empty_section_blocks(b, n),
    decreases n,
{
    if n > 0 {
        lemma_empty_blocks_same(a, b, n - 1);
        lemma_content_same_blocks(a, b, n - 1, 0);
    }
}

proof fn lemma_names_none(e: Seq<ParseError>, file: Option<String>)
    ensures
        reports_names(e, e, file, seq![]),
{
    assert(e.subrange(0, e.len() as int) =~= e);
}

proof fn lemma_names_chain(
    a: Seq<ParseError>,
    b: Seq<ParseError>,
    c: Seq<ParseError>,
    file: Option<String>,
    l1: Seq<(Seq<char>, Seq<char>, usize)>,
    l2: Seq<(Seq<char>, Seq<char>, usize)>,
)
    requires
        reports_names(a, b, file, l1),
        reports_names(b, c, file, l2),
    ensures
        reports_names(a, c, file, l1 + l2),
{
    assert forall|k: int| a.len() <= k < c.len() implies {
        &&& (#[trigger] c[k]) matches ParseError::InvalidSectionName { message, name, file: f, line }
        &&& message@ == (l1 + l2)[k - a.len()].0
        &&& name@ == (l1 + l2)[k - a.len()].1
        &&& f == file
        &&& line == (l1 + l2)[k - a.len()].2
    } by {
        if k < b.len() {
            assert(c.subrange(0, b.len() as int)[k] == c[k]);
            assert(b[k] == c[k]);
        } else {
            assert((l1 + l2)[k - a.len()] == l2[k - b.len()]);
        }
    }
    assert(c.subrange(0, a.len() as int) =~= a) by {
        assert forall|k: int| 0 <= k < a.len() implies c[k] == a[k] by {
            assert(c.subrange(0, b.len() as int)[k] == c[k]);
            assert(b.subrange(0, a.len() as int)[k] == b[k]);
        }
    }
}

/// Whether every section's name, and its identifier when it has its own,
/// is acceptable.
pub open spec fn section_names_ok(db: Database) -> bool {
    forall|i: int| 0 <= i < db.blocks@.len() ==> match (#[trigger] db.blocks@[i]).block_type {
        BlockType::Section(sid) => {
            let sec = db.sections@[sid as int];
            &&& section_name_ok(db.strings@[sec.name as int]@)
            &&& sec.id != sec.name ==> section_name_ok(db.strings@[sec.id as int]@)
        },
        _ => true,
    }
}

/// The section blocks among the first `n` blocks of `db` that hold no
/// content, in order.
pub open spec fn empty_section_blocks(db: Database, n: int) -> Seq<int>
    decreases n,
{
    if n <= 0 {
        seq![]
    } else if db.blocks@[n - 1].block_type is Section && !has_content(db, n - 1) {
        empty_section_blocks(db, n - 1).push(n - 1)
    } else {
        empty_section_blocks(db, n - 1)
    }
}

/// Whether `e` reports the section at block `b` of `db` as empty, in `file`.
pub open spec fn empty_section_error(db: Database, b: int, file: Option<String>, e: ParseError) -> bool {
    &&& db.blocks@[b].block_type matches BlockType::Section(sid)
    &&& e matches ParseError::EmptySection { name, file: f, line }
    &&& name == db.strings@[db.sections@[sid as int].name as int]
    &&& f == file
    &&& line == db.blocks@[b].line
}

/// Whether `after` is `before` followed by one empty-section error of
/// `file` for each block of `bs`, in order.
pub open spec fn reports_empty(before: Seq<ParseError>, after: Seq<ParseError>, db: Database, file: Option<String>, bs: Seq<int>) -> bool {
    &&& after.len() == before.len() + bs.len()
    &&& after.subrange(0, before.len() as int) == before
    &&& forall|k: int| before.len() <= k < after.len() ==> empty_section_error(db, bs[k - before.len()], file, #[trigger] after[k])
}

/// Whether `section_id` holds content (see [`has_content`]).
fn section_has_content(database: &Database, section_id: BlockId) -> (b: bool)
    requires
        database.tree_wf(),
        section_id < database.blocks@.len(),
    ensures
        b == has_content(*database, section_id as int),
    decreases database.blocks@.len() - section_id,
{
    let children = &database.blocks[section_id].children;
    let mut k: usize = 0;
    while k < children.len()
        invariant
            database.tree_wf(),
            section_id < database.blocks@.len(),
            children@ == database.blocks@[section_id as int].children@,
            0 <= k <= children@.len(),
            has_content(*database, section_id as int) == content_from(*database, section_id as int, k as int),
        decreases children.len() - k,
    {
        let child_id = children[k];
        assert(database.blocks@[section_id as int].children@[k as int] == child_id);
        assert(section_id < child_id < database.blocks@.len());
        match database.blocks[child_id].block_type {
            BlockType::String(_) | BlockType::GoTo(_) | BlockType::GoToAndBack(_) | BlockType::GoToStart
            | BlockType::GoToRestart | BlockType::GoToEnd | BlockType::SetVariable { .. }
            | BlockType::RequireVariable { .. } => {
                return true;
            },
            BlockType::Section(_) => {
                if section_has_content(database, child_id) {
                    return true;
                }
            },
            _ => {},
        }
        k = k + 1;
    }
    false
}

/// Whether `section_id` holds nothing but jumps, and at least one (see
/// [`only_jumps_from`]).
fn section_has_only_gotos(database: &Database, section_id: BlockId) -> (b: bool)
    requires
        database.tree_wf(),
        section_id < database.blocks@.len(),
    ensures
        b == only_jumps_from(*database, section_id as int, 0, false),
    decreases database.blocks@.len() - section_id,
{
    let children = &database.blocks[section_id].children;
    let mut has_any_blocks = false;
    let mut k: usize = 0;
    while k < children.len()
        invariant
            database.tree_wf(),
            section_id < database.blocks@.len(),
            children@ == database.blocks@[section_id as int].children@,
            0 <= k <= children@.len(),
            only_jumps_from(*database, section_id as int, 0, false)
                == only_jumps_from(*database, section_id as int, k as int, has_any_blocks),
        decreases children.len() - k,
    {
        let child_id = children[k];
        assert(database.blocks@[section_id as int].children@[k as int] == child_id);
        assert(section_id < child_id < database.blocks@.len());
        match database.blocks[child_id].block_type {
            BlockType::String(_) => {
                return false;
            },
            BlockType::GoTo(_) | BlockType::GoToAndBack(_) | BlockType::GoToStart | BlockType::GoToRestart
            | BlockType::GoToEnd => {
                has_any_blocks = true;
            },
            BlockType::SetVariable { .. } | BlockType::RequireVariable { .. } => {
                return false;
            },
            BlockType::Section(_) => {
                if !section_has_only_gotos(database, child_id) {
                    return false;
                }
                has_any_blocks = true;
            },
            _ => {},
        }
        k = k + 1;
    }
    has_any_blocks
}

/// The lines of the blocks among `ids` that are not sections, in order.
pub open spec fn non_section_lines(db: Database, ids: Seq<BlockId>) -> Seq<usize>
    decreases ids.len(),
{
    if ids.len() == 0 {
        seq![]
    } else {
        let before = non_section_lines(db, ids.drop_last());
        let b = db.blocks@[ids.last() as int];
        if b.block_type is Section {
            before
        } else {
            before.push(b.line)
        }
    }
}

/// The first position of `g` among `ids`.
pub open spec fn first_position(ids: Seq<BlockId>, g: BlockId) -> Option<int> {
    if ids.contains(g) {
        Some(choose|k: int| 0 <= k < ids.len() && ids[k] == g && forall|j: int| 0 <= j < k ==> ids[j] != g)
    } else {
        None
    }
}

/// The lines that a jump at block `g` makes unreachable: the later siblings
/// and the children of the jump, sections excepted (a section can still be
/// jumped to).
pub open spec fn unreachable_lines(db: Database, g: int) -> Seq<usize> {
    let after_jump = match db.blocks@[g].parent_id {
        Some(p) => match first_position(db.blocks@[p as int].children@, g as BlockId) {
            Some(pos) => non_section_lines(db, db.blocks@[p as int].children@.skip(pos + 1)),
            None => seq![],
        },
        None => seq![],
    };
    after_jump + non_section_lines(db, db.blocks@[g].children@)
}

/// The message of an unreachable-code warning.
pub open spec fn unreachable_message() -> Seq<char> {
    "Unreachable code after section jump"@
}

/// The lines reported as unreachable for the jumps among the first `n`
/// blocks of `db`, jump by jump in block order.
pub open spec fn jump_warning_lines(db: Database, n: int) -> Seq<usize>
    decreases n,
{
    if n <= 0 {
        seq![]
    } else if db.blocks@[n - 1].block_type is GoTo {
        jump_warning_lines(db, n - 1) + unreachable_lines(db, n - 1)
    } else {
        jump_warning_lines(db, n - 1)
    }
}

/// Whether `after` is `before` followed by one unreachable-code warning of
/// `file` for each of `lines`, in order.
#[verifier::opaque]
pub open spec fn warns_unreachable(before: Seq<Warning>, after: Seq<Warning>, file: Option<String>, lines: Seq<usize>) -> bool {
    &&& after.len() == before.len() + lines.len()
    &&& after.subrange(0, before.len() as int) == before
    &&& forall|k: int|
        before.len() <= k < after.len() ==> {
            let w = #[trigger] after[k];
            &&& w.message@ == unreachable_message()
            &&& w.file == file
            &&& w.line == lines[k - before.len()]
        }
}

proof fn lemma_non_section_blocks(a: Database, b: Database, ids: Seq<BlockId>)
    requires
        a.blocks == b.blocks,
    ensures
        non_section_lines(a, ids) == non_section_lines(b, ids),
    decreases ids.len(),
{
    if ids.len() > 0 {
        lemma_non_section_blocks(a, b, ids.drop_last());
    }
}

proof fn lemma_jump_lines_blocks(a: Database, b: Database, n: int)
    requires
        a.blocks == b.blocks,
    ensures
        jump_warning_lines(a, n) == jump_warning_lines(b, n),
    decreases n,
{
    if n > 0 {
        lemma_jump_lines_blocks(a, b, n - 1);
        let g = n - 1;
        lemma_non_section_blocks(a, b, a.blocks@[g].children@);
        if let Some(p) = a.blocks@[g].parent_id {
            if let Some(pos) = first_position(a.blocks@[p as int].children@, g as BlockId) {
                lemma_non_section_blocks(a, b, a.blocks@[p as int].children@.skip(pos + 1));
            }
        }
        assert(unreachable_lines(a, g) == unreachable_lines(b, g));
    }
}

proof fn lemma_warns_none(w: Seq<Warning>, file: Option<String>)
    ensures
        warns_unreachable(w, w, file, seq![]),
{
    reveal(warns_unreachable);
    assert(w.subrange(0, w.len() as int) =~= w);
}

proof fn lemma_warns_chain(a: Seq<Warning>, b: Seq<Warning>, c: Seq<Warning>, file: Option<String>, l1: Seq<usize>, l2: Seq<usize>)
    requires
        warns_unreachable(a, b, file, l1),
        warns_unreachable(b, c, file, l2),
    ensures
        warns_unreachable(a, c, file, l1 + l2),
{
    reveal(warns_unreachable);
    assert forall|k: int| a.len() <= k < c.len() implies {
        let w = #[trigger] c[k];
        &&& w.message@ == unreachable_message()
        &&& w.file == file
        &&& w.line == (l1 + l2)[k - a.len()]
    } by {
        if k < b.len() {
            assert(c.subrange(0, b.len() as int)[k] == c[k]);
            assert(b[k].line == l1[k - a.len()]);
        } else {
            assert(c[k].line == l2[k - b.len()]);
        }
    }
    assert(c.subrange(0, a.len() as int) =~= a) by {
        assert forall|k: int| 0 <= k < a.len() implies c[k] == a[k] by {
            assert(c.subrange(0, b.len() as int)[k] == c[k]);
            assert(b.subrange(0, a.len() as int)[k] == b[k]);
        }
    }
}

impl Parser {
    /// Records an error when `name` is reserved or holds a backslash.
    fn check_section_name(&mut self, label: &str, name: &[char], line: usize)
        ensures
            final(self).errors@.len() >= old(self).errors@.len(),
            final(self).errors@.subrange(0, old(self).errors@.len() as int) == old(self).errors@,
            flat_errors(old(self).errors@) ==> flat_errors(final(self).errors@),
            (final(self).errors@.len() == old(self).errors@.len()) == section_name_ok(name@),
            reports_names(old(self).errors@, final(self).errors@, old(self).file_path, name_items(label@, name@, line)),
            final(self).warnings == old(self).warnings,
            final(self).goto_paths == old(self).goto_paths,
            final(self).file_path == old(self).file_path,
    {
        let end = chars_of("END");
        let start = chars_of("START");
        let restart = chars_of("RESTART");
        let label_chars = chars_of(label);
        let ghost before = self.errors@;
        if chars_eq(name, end.as_slice()) || chars_eq(name, start.as_slice()) || chars_eq(name, restart.as_slice()) {
            let mut message = concat_chars(label_chars.as_slice(), chars_of(" \"").as_slice());
            push_all(&mut message, name);
            push_all(&mut message, chars_of("\" is reserved").as_slice());
            self.errors.push(ParseError::InvalidSectionName {
                message: string_from_chars(message.as_slice()),
                name: string_from_chars(name),
                file: self.file_path.clone(),
                line,
            });
        }
        let ghost middle = self.errors@;
        if crate::text::contains_char(name, '\\') {
            let mut message = concat_chars(label_chars.as_slice(), chars_of("s cannot contain '\\' character").as_slice());
            self.errors.push(ParseError::InvalidSectionName {
                message: string_from_chars(message.as_slice()),
                name: string_from_chars(name),
                file: self.file_path.clone(),
                line,
            });
        }
        assert(self.errors@.subrange(0, before.len() as int) =~= before);
        proof {
            let msgs = name_problem_messages(label@, name@);
            let items = name_items(label@, name@, line);
            assert(items.len() == msgs.len());
            assert forall|k: int| before.len() <= k < self.errors@.len() implies {
                &&& (#[trigger] self.errors@[k]) matches ParseError::InvalidSectionName { message, name: nm, file: f, line: l }
                &&& message@ == items[k - before.len()].0
                &&& nm@ == items[k - before.len()].1
                &&& f == old(self).file_path
                &&& l == items[k - before.len()].2
            } by {
                assert(items[k - before.len()] == (msgs[k - before.len()], name@, line));
                if k < middle.len() {
                    assert(self.errors@[k] == middle[k]);
                }
            }
        }
    }

    /// Checks the names (and own identifiers) of all sections: none may be
    /// `END`, `START` or `RESTART`, nor hold a backslash.
    fn validate_section_names(&mut self, database: &Database) -> (r: Result<(), ParseError>)
        requires
            database.wf_with(true),
        ensures
            r is Ok,
            final(self).errors@.len() >= old(self).errors@.len(),
            flat_errors(old(self).errors@) ==> flat_errors(final(self).errors@),
            final(self).errors@.subrange(0, old(self).errors@.len() as int) == old(self).errors@,
            (final(self).errors@.len() == old(self).errors@.len()) == section_names_ok(*database),
            reports_names(old(self).errors@, final(self).errors@, old(self).file_path,
                section_name_items(*database, database.blocks@.len() as int)),
            final(self).warnings == old(self).warnings,
            final(self).goto_paths == old(self).goto_paths,
            final(self).file_path == old(self).file_path,
    {
        let ghost e0 = self.errors@;
        proof {
            lemma_names_none(e0, old(self).file_path);
        }
        let mut i: usize = 0;
        while i < database.blocks.len()
            invariant
                database.wf_with(true),
                0 <= i <= database.blocks@.len(),
                self.errors@.len() >= e0.len(),
                flat_errors(e0) ==> flat_errors(self.errors@),
                self.errors@.subrange(0, e0.len() as int) == e0,
                (self.errors@.len() == e0.len()) == (forall|j: int| 0 <= j < i ==> match (#[trigger] database.blocks@[j]).block_type {
                    BlockType::Section(sid) => {
                        let sec = database.sections@[sid as int];
                        &&& section_name_ok(database.strings@[sec.name as int]@)
                        &&& sec.id != sec.name ==> section_name_ok(database.strings@[sec.id as int]@)
                    },
                    _ => true,
                }),
                reports_names(e0, self.errors@, old(self).file_path, section_name_items(*database, i as int)),
                self.warnings == old(self).warnings,
                self.goto_paths == old(self).goto_paths,
                self.file_path == old(self).file_path,
            decreases database.blocks.len() - i,
        {
            let ghost before = self.errors@;
            let block = &database.blocks[i];
            if let BlockType::Section(section_id) = block.block_type {
                assert(database.blocks@[i as int] == *block);
                let section = &database.sections[section_id];
                assert(database.sections@[section_id as int] == *section);
                let display_name = chars_of(database.strings[section.name].as_str());
                let id_name = chars_of(database.strings[section.id].as_str());
                let skip_id_validation = section.id == section.name;
                self.check_section_name("Section name", display_name.as_slice(), block.line);
                let ghost mid = self.errors@;
                if !skip_id_validation {
                    self.check_section_name("Section id", id_name.as_slice(), block.line);
                } else {
                    proof {
                        lemma_names_none(mid, old(self).file_path);
                    }
                }
                proof {
                    let sec = database.sections@[section_id as int];
                    let first = name_items("Section name"@, database.strings@[sec.name as int]@, block.line);
                    let second = if sec.id != sec.name {
                        name_items("Section id"@, database.strings@[sec.id as int]@, block.line)
                    } else {
                        seq![]
                    };
                    lemma_names_chain(before, mid, self.errors@, old(self).file_path, first, second);
                    lemma_names_chain(e0, before, self.errors@, old(self).file_path, section_name_items(*database, i as int), first + second);
                    assert(section_name_items(*database, i + 1) == section_name_items(*database, i as int) + (first + second));
                    reveal_strlit("Section name");
                    assert(self.errors@.subrange(0, e0.len() as int) =~= mid.subrange(0, e0.len() as int));
                    assert(mid.subrange(0, e0.len() as int) =~= before.subrange(0, e0.len() as int));
                }
            }
            proof {
                if !(database.blocks@[i as int].block_type is Section) {
                    assert(self.errors@ == before);
                    assert(section_name_items(*database, i + 1) =~= section_name_items(*database, i as int));
                }
            }
            i = i + 1;
        }
        Ok(())
    }

    /// Reports every section without content (see [`has_content`]).
    fn detect_empty_sections(&mut self, database: &Database) -> (r: Result<(), ParseError>)
        requires
            database.wf_with(true),
        ensures
            r is Ok,
            final(self).errors@.len() >= old(self).errors@.len(),
            flat_errors(old(self).errors@) ==> flat_errors(final(self).errors@),
            final(self).errors@.subrange(0, old(self).errors@.len() as int) == old(self).errors@,
            (final(self).errors@.len() == old(self).errors@.len()) == (forall|i: int|
                0 <= i < database.blocks@.len() && (#[trigger] database.blocks@[i]).block_type is Section
                    ==> has_content(*database, i)),
            reports_empty(old(self).errors@, final(self).errors@, *database, old(self).file_path,
                empty_section_blocks(*database, database.blocks@.len() as int)),
            final(self).warnings == old(self).warnings,
            final(self).goto_paths == old(self).goto_paths,
            final(self).file_path == old(self).file_path,
    {
        let ghost e0 = self.errors@;
        assert(e0.subrange(0, e0.len() as int) =~= e0);
        let mut i: usize = 0;
        while i < database.blocks.len()
            invariant
                database.wf_with(true),
                0 <= i <= database.blocks@.len(),
                self.errors@.len() >= e0.len(),
                flat_errors(e0) ==> flat_errors(self.errors@),
                self.errors@.subrange(0, e0.len() as int) == e0,
                (self.errors@.len() == e0.len()) == (forall|j: int|
                    0 <= j < i && (#[trigger] database.blocks@[j]).block_type is Section ==> has_content(*database, j)),
                reports_empty(e0, self.errors@, *database, old(self).file_path, empty_section_blocks(*database, i as int)),
                self.warnings == old(self).warnings,
                self.goto_paths == old(self).goto_paths,
                self.file_path == old(self).file_path,
            decreases database.blocks.len() - i,
        {
            let ghost start_errors = self.errors@;
            let block = &database.blocks[i];
            if let BlockType::Section(section_id) = block.block_type {
                assert(database.blocks@[i as int] == *block);
                if !section_has_content(database, i) {
                    let section = &database.sections[section_id];
                    assert(database.sections@[section_id as int] == *section);
                    let ghost before = self.errors@;
                    self.errors.push(ParseError::EmptySection {
                        name: database.strings[section.name].clone(),
                        file: self.file_path.clone(),
                        line: block.line,
                    });
                    assert(self.errors@.subrange(0, e0.len() as int) =~= before.subrange(0, e0.len() as int));
                    proof {
                        let bs = empty_section_blocks(*database, i as int);
                        assert(empty_section_blocks(*database, i + 1) == bs.push(i as int));
                        assert forall|k: int| e0.len() <= k < self.errors@.len() implies empty_section_error(
                            *database, bs.push(i as int)[k - e0.len()], old(self).file_path, #[trigger] self.errors@[k]) by {
                            if k < before.len() {
                                assert(self.errors@[k] == before[k]);
                            }
                        }
                    }
                }
            }
            proof {
                assert(self.errors@ == start_errors ==> empty_section_blocks(*database, i + 1) == empty_section_blocks(*database, i as int));
            }
            i = i + 1;
        }
        Ok(())
    }

    /// Warns about the lines a jump at `goto_block_id` makes unreachable
    /// (see [`unreachable_lines`]).
    #[verifier::rlimit(40)]
    #[verifier::spinoff_prover]
    fn detect_unreachable_code(&mut self, database: &Database, goto_block_id: BlockId)
        requires
            database.tree_wf(),
            goto_block_id < database.blocks@.len(),
        ensures
            warns_unreachable(old(self).warnings@, final(self).warnings@, old(self).file_path, unreachable_lines(*database, goto_block_id as int)),
            final(self).errors == old(self).errors,
            final(self).goto_paths == old(self).goto_paths,
            final(self).file_path == old(self).file_path,
    {
        let goto_block = &database.blocks[goto_block_id];
        let ghost g = goto_block_id as int;
        let ghost expected = unreachable_lines(*database, g);
        let ghost w0 = self.warnings@;
        let ghost after_jump: Seq<usize> = match database.blocks@[g].parent_id {
            Some(p) => match first_position(database.blocks@[p as int].children@, goto_block_id) {
                Some(pos) => non_section_lines(*database, database.blocks@[p as int].children@.skip(pos + 1)),
                None => seq![],
            },
            None => seq![],
        };
        assert(database.blocks@[g] == *goto_block);
        if let Some(parent_id) = goto_block.parent_id {
            let parent = &database.blocks[parent_id];
            let ghost ch = parent.children@;
            let position = first_index_of_block(&parent.children, goto_block_id);
            if let Some(pos) = position {
                let count = parent.children.len();
                assert(pos < count);
                assert(database.blocks@[parent_id as int] == *parent);
                self.warn_non_sections(database, &parent.children, pos + 1);
                assert(after_jump == non_section_lines(*database, ch.skip(pos + 1)));
            } else {
                assert(after_jump =~= seq![]);
            }
        } else {
            assert(after_jump =~= seq![]);
        }
        let ghost w1 = self.warnings@;
        assert(w1.len() == w0.len() + after_jump.len());
        self.warn_non_sections(database, &goto_block.children, 0);
        proof {
            assert(goto_block.children@.skip(0) =~= goto_block.children@);
            assert(expected == after_jump + non_section_lines(*database, goto_block.children@));
            assert forall|k: int| w0.len() <= k < self.warnings@.len() implies {
                let w = #[trigger] self.warnings@[k];
                &&& w.message@ == unreachable_message()
                &&& w.file == old(self).file_path
                &&& w.line == expected[k - w0.len()]
            } by {
                if k < w1.len() {
                    assert(self.warnings@[k] == w1[k]);
                }
            }
            assert(self.warnings@.subrange(0, w0.len() as int) =~= w1.subrange(0, w0.len() as int));
            reveal(warns_unreachable);
        }
    }

    /// Warns about each block of `ids[from..]` that is not a section.
    fn warn_non_sections(&mut self, database: &Database, ids: &Vec<BlockId>, from: usize)
        requires
            database.tree_wf(),
            forall|k: int| 0 <= k < ids@.len() ==> #[trigger] ids@[k] < database.blocks@.len(),
            from <= ids@.len(),
        ensures
            final(self).warnings@.len() == old(self).warnings@.len() + non_section_lines(*database, ids@.skip(from as int)).len(),
            final(self).warnings@.subrange(0, old(self).warnings@.len() as int) == old(self).warnings@,
            forall|k: int| old(self).warnings@.len() <= k < final(self).warnings@.len() ==> {
                let w = #[trigger] final(self).warnings@[k];
                &&& w.message@ == unreachable_message()
                &&& w.file == old(self).file_path
                &&& w.line == non_section_lines(*database, ids@.skip(from as int))[k - old(self).warnings@.len()]
            },
            final(self).errors == old(self).errors,
            final(self).goto_paths == old(self).goto_paths,
            final(self).file_path == old(self).file_path,
    {
        let ghost w0 = self.warnings@;
        let mut i = from;
        while i < ids.len()
            invariant
                database.tree_wf(),
                forall|k: int| 0 <= k < ids@.len() ==> #[trigger] ids@[k] < database.blocks@.len(),
                from <= i <= ids@.len(),
                self.warnings@.len() == w0.len() + non_section_lines(*database, ids@.subrange(from as int, i as int)).len(),
                self.warnings@.subrange(0, w0.len() as int) == w0,
                forall|k: int| w0.len() <= k < self.warnings@.len() ==> {
                    let w = #[trigger] self.warnings@[k];
                    &&& w.message@ == unreachable_message()
                    &&& w.file == old(self).file_path
                    &&& w.line == non_section_lines(*database, ids@.subrange(from as int, i as int))[k - w0.len()]
                },
                self.errors == old(self).errors,
                self.goto_paths == old(self).goto_paths,
                self.file_path == old(self).file_path,
            decreases ids.len() - i,
        {
            let id = ids[i];
            let ghost prev = ids@.subrange(from as int, i as int);
            let ghost next = ids@.subrange(from as int, i + 1);
            assert(next.drop_last() =~= prev);
            assert(next.last() == id);
            let block = &database.blocks[id];
            assert(database.blocks@[id as int] == *block);
            let ghost before = self.warnings@;
            match block.block_type {
                BlockType::Section(_) => {},
                _ => {
                    let message = chars_of("Unreachable code after section jump");
                    self.warnings.push(Warning {
                        message: string_from_chars(message.as_slice()),
                        file: self.file_path.clone(),
                        line: block.line,
                    });
                    assert(self.warnings@.subrange(0, w0.len() as int) =~= before.subrange(0, w0.len() as int));
                },
            }
            i = i + 1;
        }
        assert(ids@.subrange(from as int, ids@.len() as int) =~= ids@.skip(from as int));
    }
}

/// The first position of `g` among `ids`.
fn first_index_of_block(ids: &Vec<BlockId>, g: BlockId) -> (r: Option<usize>)
    ensures
        match first_position(ids@, g) {
            Some(k) => r == Some(k as usize) && 0 <= k < ids@.len(),
            None => r is None,
        },
        r matches Some(k) ==> first_position(ids@, g) == Some(k as int) && k < ids@.len(),
{
    let mut k: usize = 0;
    while k < ids.len()
        invariant
            0 <= k <= ids@.len(),
            forall|j: int| 0 <= j < k ==> ids@[j] != g,
        decreases ids.len() - k,
    {
        if ids[k] == g {
            proof {
                assert(ids@.contains(g));
                let w = choose|w: int| 0 <= w < ids@.len() && ids@[w] == g && forall|j: int| 0 <= j < w ==> ids@[j] != g;
                if w < k {
                    assert(ids@[w] != g);
                } else if w > k {
                    assert(ids@[k as int] != g);
                }
            }
            return Some(k);
        }
        k = k + 1;
    }
    None
}


/// Maps each section's identifier path to the section (a later section
/// with the same path replaces an earlier one).
/// The first entry of `r` keyed `key`.
pub open spec fn key_position(r: Seq<(Seq<char>, SectionId)>, key: Seq<char>) -> Option<int> {
    if exists|k: int| 0 <= k < r.len() && (#[trigger] r[k]).0 == key {
        Some(choose|k: int| 0 <= k < r.len() && (#[trigger] r[k]).0 == key && forall|j: int| 0 <= j < k ==> r[j].0 != key)
    } else {
        None
    }
}

proof fn lemma_key_position(r: Seq<(Seq<char>, SectionId)>, key: Seq<char>, k: int)
    requires
        0 <= k < r.len(),
        r[k].0 == key,
        forall|j: int| 0 <= j < k ==> r[j].0 != key,
    ensures
        key_position(r, key) == Some(k),
{
    let w = choose|w: int| 0 <= w < r.len() && (#[trigger] r[w]).0 == key && forall|j: int| 0 <= j < w ==> r[j].0 != key;
    assert(r[k].0 == key);
    if w < k {
        assert(r[w].0 != key);
    } else if w > k {
        assert(r[k].0 != key);
    }
}

/// The registry of the sections among the blocks `0..i`: each section's
/// identifier path with the section, a later section taking over the entry
/// of an earlier one with the same path.
pub open spec fn registry_upto(db: Database, i: int) -> Seq<(Seq<char>, SectionId)>
    decreases i,
{
    if i <= 0 {
        seq![]
    } else {
        let r = registry_upto(db, i - 1);
        match db.blocks@[i - 1].block_type {
            BlockType::Section(sid) => {
                let key = db.strings@[db.sections@[sid as int].id_path as int]@;
                match key_position(r, key) {
                    Some(k) => r.update(k, (r[k].0, sid)),
                    None => r.push((key, sid)),
                }
            },
            _ => r,
        }
    }
}

proof fn lemma_registry_upto_same(a: Database, b: Database, i: int)
    requires
        same_skeleton(a, b),
        i <= a.blocks@.len(),
    ensures
        registry_upto(a, i) == registry_upto(b, i),
    decreases i,
{
    if i > 0 {
        lemma_registry_upto_same(a, b, i - 1);
        lemma_skeleton_block(a, b, i - 1);
    }
}

fn build_section_registry(database: &Database) -> (registry: Vec<(String, SectionId)>)
    requires
        database.wf_with(true),
    ensures
        registry_ok(registry@, *database),
        registry_views(registry@) == registry_upto(*database, database.blocks@.len() as int),
{
    let mut registry: Vec<(String, SectionId)> = Vec::new();
    let mut i: usize = 0;
    assert(registry_views(registry@) =~= registry_upto(*database, 0));
    while i < database.blocks.len()
        invariant
            database.wf_with(true),
            0 <= i <= database.blocks@.len(),
            registry_ok(registry@, *database),
            registry_views(registry@) == registry_upto(*database, i as int),
        decreases database.blocks.len() - i,
    {
        if let BlockType::Section(section_id) = database.blocks[i].block_type {
            assert(database.blocks@[i as int] == database.blocks@[i as int]);
            let section = &database.sections[section_id];
            assert(database.sections@[section_id as int] == *section);
            let path = database.strings[section.id_path].clone();
            let key = chars_of(path.as_str());
            let ghost r0 = registry_views(registry@);
            let mut k: usize = 0;
            let mut replaced = false;
            while k < registry.len()
                invariant_except_break
                    !replaced,
                    registry_views(registry@) == r0,
                    forall|j: int| 0 <= j < k ==> r0[j].0 != key@,
                invariant
                    0 <= k <= registry@.len(),
                    registry_ok(registry@, *database),
                    section_id < database.sections@.len(),
                    r0.len() == registry@.len(),
                ensures
                    replaced ==> (key_position(r0, key@) matches Some(p) && registry_views(registry@) == r0.update(
                        p,
                        (r0[p].0, section_id),
                    )),
                    !replaced ==> registry_views(registry@) == r0 && forall|j: int| 0 <= j < r0.len() ==> r0[j].0 != key@,
                decreases registry.len() - k,
            {
                let existing = chars_of(registry[k].0.as_str());
                if chars_eq(existing.as_slice(), key.as_slice()) {
                    proof {
                        assert(r0[k as int] == (registry@[k as int].0@, registry@[k as int].1));
                        lemma_key_position(r0, key@, k as int);
                    }
                    let entry = (registry[k].0.clone(), section_id);
                    let ghost before_set = registry@;
                    registry.set(k, entry);
                    proof {
                        assert forall|m: int| 0 <= m < registry@.len() implies #[trigger] registry_views(registry@)[m]
                            == r0.update(k as int, (r0[k as int].0, section_id))[m] by {
                            if m != k {
                                assert(registry@[m] == before_set[m]);
                                assert(registry_views(before_set)[m] == r0[m]);
                            }
                        }
                        assert(registry_views(registry@) =~= r0.update(k as int, (r0[k as int].0, section_id)));
                        assert forall|m: int| 0 <= m < registry@.len() implies (#[trigger] registry@[m]).1 < database.sections@.len() by {
                            if m != k {
                                assert(registry@[m] == before_set[m]);
                            }
                        }
                    }
                    replaced = true;
                    break;
                }
                proof {
                    assert(r0[k as int] == (registry@[k as int].0@, registry@[k as int].1));
                }
                k = k + 1;
            }
            if !replaced {
                proof {
                    assert(!exists|j: int| 0 <= j < r0.len() && (#[trigger] r0[j]).0 == key@);
                    assert(key_position(r0, key@) is None);
                }
                registry.push((path, section_id));
                proof {
                    assert(registry_views(registry@) =~= r0.push((key@, section_id)));
                }
            }
        }
        i = i + 1;
    }
    registry
}

impl Parser {
    /// The written target recorded for block `block_id`.
    fn goto_path_of(&self, block_id: BlockId) -> (r: Option<Vec<char>>)
        ensures
            has_path(self.goto_paths@, block_id as int) ==> (r matches Some(p) && p@ == path_for(
                self.goto_paths@,
                block_id as int,
            )),
    {
        let mut k: usize = 0;
        while k < self.goto_paths.len()
            invariant
                0 <= k <= self.goto_paths@.len(),
                forall|j: int| 0 <= j < k ==> (#[trigger] self.goto_paths@[j]).0 != block_id,
            decreases self.goto_paths.len() - k,
        {
            if self.goto_paths[k].0 == block_id {
                proof {
                    lemma_path_for(self.goto_paths@, block_id as int, k as int);
                }
                return Some(chars_of(self.goto_paths[k].1.as_str()));
            }
            k = k + 1;
        }
        None
    }

    /// After reading: records the section registry in the database, checks
    /// section names and (when nothing went wrong so far) empty sections,
    /// then resolves every jump, warning about code that a jump makes
    /// unreachable. When no error is added, every jump has its target.
    #[verifier::rlimit(100)]
    #[verifier::spinoff_prover]
    fn validate_and_resolve(&mut self, context: &mut ParserContext) -> (r: Result<(), ParseError>)
        requires
            old(self).inv(old(context).database),
        ensures
            r is Ok,
            final(context).database.wf_with(true),
            final(context).database.blocks@.len() == old(context).database.blocks@.len(),
            forall|j: int| 0 <= j < old(context).database.blocks@.len() ==> (#[trigger] final(context).database.blocks@[j]).parent_id
                == old(context).database.blocks@[j].parent_id,
            forall|j: int| 0 <= j < old(context).database.blocks@.len() && !(old(context).database.blocks@[j].block_type is GoTo)
                && !(old(context).database.blocks@[j].block_type is GoToAndBack)
                ==> (#[trigger] final(context).database.blocks@[j]).block_type == old(context).database.blocks@[j].block_type,
            final(self).errors@.len() >= old(self).errors@.len(),
            forall|k: int| 0 <= k < old(self).errors@.len() ==> #[trigger] final(self).errors@[k] == old(self).errors@[k],
            flat_errors(old(self).errors@) ==> flat_errors(final(self).errors@),
            no_sections_or_jumps(old(context).database) ==> final(self).errors@.len() == old(self).errors@.len()
                && final(self).warnings == old(self).warnings,
            ({
                &&& section_names_ok(old(context).database)
                &&& old(self).errors@.len() == 0 ==> forall|i: int| 0 <= i < old(context).database.blocks@.len()
                    && (#[trigger] old(context).database.blocks@[i]).block_type is Section ==> has_content(old(context).database, i)
                &&& forall|j: int| 0 <= j < old(context).database.blocks@.len() && (old(context).database.blocks@[j].block_type is GoTo)
                    ==> (#[trigger] resolve_target(
                    final(context).database,
                    final(context).database.section_registry@,
                    path_for(old(self).goto_paths@, j),
                    containing_block(final(context).database, j),
                )) is Target
            }) ==> final(self).errors@.len() == old(self).errors@.len(),
            final(self).errors@.len() == old(self).errors@.len() ==> final(context).database.wf(),
            final(self).errors@.len() == old(self).errors@.len() ==> section_names_ok(final(context).database),
            final(self).errors@.len() == old(self).errors@.len() && old(self).errors@.len() == 0 ==> forall|i: int|
                0 <= i < final(context).database.blocks@.len() && (#[trigger] final(context).database.blocks@[i]).block_type is Section
                    ==> has_content(final(context).database, i),
            final(self).file_path == old(self).file_path,
            same_skeleton(final(context).database, old(context).database),
            forall|j: int| 0 <= j < final(context).database.blocks@.len() ==> (#[trigger] final(context).database.blocks@[j]).line
                == old(context).database.blocks@[j].line,
            warns_unreachable(old(self).warnings@, final(self).warnings@, old(self).file_path,
                jump_warning_lines(old(context).database, old(context).database.blocks@.len() as int)),
            validation_reported(old(self).errors@, final(self).errors@, old(context).database, final(context).database,
                old(self).goto_paths@, old(self).file_path),
            keeps_lines(old(context).database, final(context).database),
            final(context).database.strings == old(context).database.strings,
            final(context).database.variables == old(context).database.variables,
            forall|j: int| 0 <= j < old(context).database.blocks@.len() && (old(context).database.blocks@[j].block_type is GoTo)
                ==> is_jump_type((#[trigger] final(context).database.blocks@[j]).block_type),
            final(self).goto_paths == old(self).goto_paths,
            registry_views(final(context).database.section_registry@) == registry_upto(
                final(context).database,
                final(context).database.blocks@.len() as int,
            ),
            final(self).errors@.len() == old(self).errors@.len() ==> forall|j: int|
                0 <= j < old(context).database.blocks@.len() && (old(context).database.blocks@[j].block_type is GoTo)
                    ==> resolve_target(
                    final(context).database,
                    final(context).database.section_registry@,
                    path_for(old(self).goto_paths@, j),
                    containing_block(final(context).database, j),
                ) == Resolved::Target((#[trigger] final(context).database.blocks@[j]).block_type),
    {
        let ghost e0 = self.errors@.len();
        let ghost db_r = context.database;
        let registry = build_section_registry(&context.database);
        let stored = copy_registry(&registry);
        proof {
            lemma_registry_ok_same(registry@, stored@, context.database);
        }
        context.database.section_registry = stored;
        match self.validate_section_names(&context.database) {
            Ok(()) => {},
            Err(e) => return Err(e),
        }
        let ghost m1 = self.errors@;
        if self.errors.len() == 0 {
            match self.detect_empty_sections(&context.database) {
                Ok(()) => {},
                Err(e) => return Err(e),
            }
        }
        let ghost db0 = context.database;
        let ghost e1 = self.errors@.len();
        let ghost m2 = self.errors@;
        assert(db0.blocks == old(context).database.blocks);
        assert forall|k: int| 0 <= k < e0 implies #[trigger] self.errors@[k] == old(self).errors@[k] by {
            assert(self.errors@.subrange(0, e0 as int)[k] == self.errors@[k]);
        }
        proof {
            if no_sections_or_jumps(db0) {
                assert(section_names_ok(db_r)) by {
                    assert forall|j: int| 0 <= j < db_r.blocks@.len() implies !((#[trigger] db_r.blocks@[j]).block_type is Section) by {
                        assert(db_r.blocks@[j] == db0.blocks@[j]);
                    }
                }
            }
        }
        let n = context.database.blocks.len();
        proof {
            lemma_warns_none(self.warnings@, self.file_path);
        }
        let ghost ev = self.errors;
        let mut w: usize = 0;
        while w < n
            invariant
                n == context.database.blocks@.len(),
                context.database == db0,
                db0.tree_wf(),
                0 <= w <= n,
                self.errors == ev,
                self.goto_paths == old(self).goto_paths,
                self.file_path == old(self).file_path,
                warns_unreachable(old(self).warnings@, self.warnings@, old(self).file_path, jump_warning_lines(db0, w as int)),
                no_sections_or_jumps(db0) ==> self.warnings == old(self).warnings,
            decreases n - w,
        {
            let ghost before = self.warnings@;
            if let BlockType::GoTo(_) = context.database.blocks[w].block_type {
                self.detect_unreachable_code(&context.database, w);
                proof {
                    lemma_warns_chain(old(self).warnings@, before, self.warnings@, old(self).file_path,
                        jump_warning_lines(db0, w as int), unreachable_lines(db0, w as int));
                }
            }
            w = w + 1;
        }
        let ghost wv = self.warnings@;
        proof {
            lemma_jumps_start(m2, db0, registry@, self.goto_paths@, old(self).file_path);
        }
        let mut i: usize = 0;
        while i < n
            invariant
                n == context.database.blocks@.len(),
                n == db0.blocks@.len(),
                0 <= i <= n,
                context.database.wf_with(true),
                registry_ok(registry@, context.database),
                context.database.sections == db0.sections,
                context.database.strings == db0.strings,
                context.database.variables == db0.variables,
                forall|j: int| i <= j < n ==> #[trigger] context.database.blocks@[j] == db0.blocks@[j],
                forall|j: int| 0 <= j < n && (#[trigger] db0.blocks@[j]).block_type is GoTo ==> has_path(self.goto_paths@, j),
                forall|j: int| 0 <= j < n ==> !((#[trigger] db0.blocks@[j]).block_type is GoToAndBack),
                self.errors@.len() >= e1,
                e1 >= e0,
                no_sections_or_jumps(db0) ==> self.errors@.len() == e1 && e1 == e0 && self.warnings == old(self).warnings,
                forall|k: int| 0 <= k < e0 ==> #[trigger] self.errors@[k] == old(self).errors@[k],
                flat_errors(old(self).errors@) ==> flat_errors(self.errors@),
                self.errors@.len() == e1 ==> forall|j: int| 0 <= j < i ==> context.database.type_refs_ok(#[trigger] context.database.blocks@[j].block_type, false),
                db0.blocks == old(context).database.blocks,
                forall|j: int| 0 <= j < n ==> (#[trigger] context.database.blocks@[j]).parent_id == db0.blocks@[j].parent_id,
                forall|j: int| 0 <= j < n ==> (#[trigger] context.database.blocks@[j]).line == db0.blocks@[j].line
                    && context.database.blocks@[j].level == db0.blocks@[j].level,
                forall|j: int| 0 <= j < i && (db0.blocks@[j].block_type is GoTo)
                    ==> is_jump_type((#[trigger] context.database.blocks@[j]).block_type),
                same_skeleton(context.database, db0),
                self.goto_paths == old(self).goto_paths,
                context.database.section_registry == db0.section_registry,
                registry_views(registry@) == registry_views(db0.section_registry@),
                self.errors@.len() == e1 ==> forall|j: int|
                    0 <= j < i && (db0.blocks@[j].block_type is GoTo) ==> resolve_target(
                        db0,
                        registry@,
                        path_for(self.goto_paths@, j),
                        containing_block(db0, j),
                    ) == Resolved::Target((#[trigger] context.database.blocks@[j]).block_type),
                forall|j: int| 0 <= j < n && !(db0.blocks@[j].block_type is GoTo) && !(db0.blocks@[j].block_type is GoToAndBack)
                    ==> (#[trigger] context.database.blocks@[j]).block_type == db0.blocks@[j].block_type,
                self.file_path == old(self).file_path,
                self.warnings@ == wv,
                db0.tree_wf(),
                reports_jumps(m2, self.errors@, db0, registry@, self.goto_paths@, old(self).file_path,
                    unresolved_jumps(db0, db0, registry@, self.goto_paths@, i as int)),
            decreases n - i,
        {
            let kind: Option<bool> = match context.database.blocks[i].block_type {
                BlockType::GoTo(_) => Some(false),
                BlockType::GoToAndBack(_) => Some(true),
                _ => None,
            };
            let ghost before_db = context.database;
            let ghost before_errors = self.errors@.len();
            let ghost eb = self.errors@;
            assert(context.database.blocks@[i as int] == db0.blocks@[i as int]);
            match kind {
                None => {
                    assert(context.database.type_refs_ok(context.database.blocks@[i as int].block_type, true));
                },
                Some(is_call_and_back) => {
                    match self.goto_path_of(i) {
                        None => {
                            assert(false);
                        },
                        Some(path) => {
                            let line = context.database.blocks[i].line;
                            let containing = find_containing_section(&context.database, i);
                            match self.resolve_path(path.as_slice(), containing, &registry, &context.database, line) {
                                Ok(resolved) => {
                                    let t = if is_call_and_back {
                                        self.call_and_back_type(&context.database, resolved, line)
                                    } else {
                                        resolved
                                    };
                                    context.database.set_block_type(i, t);
                                    proof {
                                        crate::database::lemma_set_type_wf(before_db, context.database, i, t);
                                        assert(!is_call_and_back);
                                        assert(is_jump_type(t));
                                        assert forall|j: int| 0 <= j < context.database.blocks@.len() implies {
                                            &&& (#[trigger] context.database.blocks@[j]).parent_id == db0.blocks@[j].parent_id
                                            &&& context.database.blocks@[j].children@ == db0.blocks@[j].children@
                                            &&& (context.database.blocks@[j].block_type is Section <==> db0.blocks@[j].block_type is Section)
                                            &&& (context.database.blocks@[j].block_type is Section ==> context.database.blocks@[j].block_type == db0.blocks@[j].block_type)
                                        } by {
                                            if j != i {
                                                assert(context.database.blocks@[j] == before_db.blocks@[j]);
                                                assert(before_db.blocks@[j].parent_id == db0.blocks@[j].parent_id);
                                            }
                                        }
                                        assert(same_skeleton(context.database, db0));
                                        lemma_resolve_same(before_db, db0, registry@, path@, containing);
                                        lemma_containing_same(before_db, db0, i as int);
                                    }
                                },
                                Err(e) => {
                                    assert(!(resolve_target(
                                        db0,
                                        registry@,
                                        path_for(self.goto_paths@, i as int),
                                        containing_block(db0, i as int),
                                    ) is Target)) by {
                                        lemma_resolve_same(before_db, db0, registry@, path@, containing);
                                        lemma_containing_same(before_db, db0, i as int);
                                    }
                                    let ghost before_push = self.errors@;
                                    self.errors.push(e);
                                    assert(forall|k: int| 0 <= k < before_push.len() ==> #[trigger] self.errors@[k] == before_push[k]);
                                    proof {
                                        lemma_resolve_same(before_db, db0, registry@, path@, containing);
                                        lemma_containing_same(before_db, db0, i as int);
                                        assert(self.errors@.drop_last() =~= before_push);
                                        lemma_jump_step(m2, eb, self.errors@, db0, registry@, self.goto_paths@, old(self).file_path, i as int, true);
                                    }
                                },
                            }
                        },
                    }
                },
            }
            proof {
                assert forall|j: int| i + 1 <= j < n implies #[trigger] context.database.blocks@[j] == db0.blocks@[j] by {
                    assert(context.database.blocks@[j] == before_db.blocks@[j]);
                }
                if self.errors@.len() == e1 {
                    assert forall|j: int| 0 <= j < i + 1 implies context.database.type_refs_ok(#[trigger] context.database.blocks@[j].block_type, false) by {
                        if j < i {
                            assert(context.database.blocks@[j] == before_db.blocks@[j]);
                            assert(before_db.type_refs_ok(before_db.blocks@[j].block_type, false));
                        }
                    }
                }
                assert forall|j: int| 0 <= j < n implies (#[trigger] context.database.blocks@[j]).parent_id == db0.blocks@[j].parent_id
                    && context.database.blocks@[j].line == db0.blocks@[j].line
                    && context.database.blocks@[j].level == db0.blocks@[j].level by {
                    if j != i {
                        assert(context.database.blocks@[j] == before_db.blocks@[j]);
                    }
                }
                assert forall|j: int| 0 <= j < n && !(db0.blocks@[j].block_type is GoTo) && !(db0.blocks@[j].block_type is GoToAndBack)
                    implies (#[trigger] context.database.blocks@[j]).block_type == db0.blocks@[j].block_type by {
                    if j != i {
                        assert(context.database.blocks@[j] == before_db.blocks@[j]);
                    }
                }
                if self.errors@ == eb {
                    lemma_jump_step(m2, eb, self.errors@, db0, registry@, self.goto_paths@, old(self).file_path, i as int, false);
                }
            }
            i = i + 1;
        }
        proof {
            lemma_jump_lines_blocks(db0, old(context).database, n as int);
            let js = unresolved_jumps(db0, db0, registry@, self.goto_paths@, n as int);
            lemma_unresolved_move(db0, context.database, old(context).database, registry@, self.goto_paths@, n as int);
            assert forall|k: int| 0 <= k < js.len() implies 0 <= #[trigger] js[k] < db0.blocks@.len() by {
                lemma_unresolved_in(db0, registry@, self.goto_paths@, n as int, k);
            }
            assert(same_skeleton(db0, context.database));
            lemma_jumps_move(m2, self.errors@, db0, context.database, registry@, self.goto_paths@, old(self).file_path, js);
            assert(context.database.section_registry@ == registry@);
            lemma_name_items_same(db0, old(context).database, n as int);
            if m1.len() == 0 {
                lemma_empty_move(m1, m2, db0, old(context).database, old(self).file_path, n as int);
            }
            assert(reports_names(old(self).errors@, m1, old(self).file_path, section_name_items(old(context).database, n as int)));
            assert(reports_jumps(m2, self.errors@, context.database, context.database.section_registry@, old(self).goto_paths@,
                old(self).file_path, unresolved_jumps(old(context).database, context.database, context.database.section_registry@,
                old(self).goto_paths@, n as int)));
            if m1.len() == 0 {
                assert(reports_empty(m1, m2, old(context).database, old(self).file_path, empty_section_blocks(old(context).database, n as int)));
            } else {
                assert(m2 == m1);
            }
            assert(validation_split(old(self).errors@, self.errors@, old(context).database, context.database,
                old(self).goto_paths@, old(self).file_path, m1, m2));
        }
        proof {
            if ({
                &&& section_names_ok(old(context).database)
                &&& old(self).errors@.len() == 0 ==> forall|k: int| 0 <= k < old(context).database.blocks@.len()
                    && (#[trigger] old(context).database.blocks@[k]).block_type is Section ==> has_content(old(context).database, k)
                &&& forall|j: int| 0 <= j < old(context).database.blocks@.len() && (old(context).database.blocks@[j].block_type is GoTo)
                    ==> (#[trigger] resolve_target(
                    context.database,
                    context.database.section_registry@,
                    path_for(old(self).goto_paths@, j),
                    containing_block(context.database, j),
                )) is Target
            }) {
                assert(section_names_ok(db0));
                assert forall|k: int| 0 <= k < db0.blocks@.len() && (#[trigger] db0.blocks@[k]).block_type is Section
                    implies (e0 == 0 ==> has_content(db0, k)) by {
                    if e0 == 0 {
                        assert(old(context).database.blocks@[k] == db0.blocks@[k]);
                        lemma_content_same_blocks(old(context).database, db0, k, 0);
                    }
                }
                lemma_resolutions_back(db0, context.database, registry@, self.goto_paths@);
                lemma_unresolved_empty(db0, registry@, self.goto_paths@, n as int);
                reveal(reports_jumps);
                assert(self.errors@.len() == e1);
            }
            if self.errors@.len() == e0 {
                assert(section_names_ok(db0));
                assert(section_names_ok(context.database)) by {
                    assert forall|i: int| 0 <= i < context.database.blocks@.len() implies match (#[trigger] context.database.blocks@[i]).block_type {
                        BlockType::Section(sid) => {
                            let sec = context.database.sections@[sid as int];
                            &&& section_name_ok(context.database.strings@[sec.name as int]@)
                            &&& sec.id != sec.name ==> section_name_ok(context.database.strings@[sec.id as int]@)
                        },
                        _ => true,
                    } by {
                        assert(db0.blocks@[i].block_type is Section ==> context.database.blocks@[i].block_type == db0.blocks@[i].block_type);
                    }
                }
                if e0 == 0 {
                    assert forall|i: int| 0 <= i < context.database.blocks@.len() && (#[trigger] context.database.blocks@[i]).block_type is Section
                        implies has_content(context.database, i) by {
                        assert(db0.blocks@[i].block_type is Section);
                        assert forall|x: int| 0 <= x < context.database.blocks@.len() implies {
                            &&& (#[trigger] context.database.blocks@[x]).children@ == db0.blocks@[x].children@
                            &&& (context.database.blocks@[x].block_type is Section <==> db0.blocks@[x].block_type is Section)
                            &&& is_content(context.database.blocks@[x].block_type) == is_content(db0.blocks@[x].block_type)
                        } by {
                            if db0.blocks@[x].block_type is GoTo {
                                assert(is_jump_type(context.database.blocks@[x].block_type));
                            }
                        }
                        lemma_content_same_kinds(context.database, db0, i, 0);
                    }
                }
                assert(e1 == e0);
                assert forall|j: int| 0 <= j < context.database.blocks@.len() implies context.database.type_refs_ok(#[trigger] context.database.blocks@[j].block_type, false) by {}
                lemma_resolutions_carry(db0, context.database, registry@, self.goto_paths@);
            }
            lemma_registry_upto_same(db_r, db0, n as int);
            lemma_registry_upto_same(db0, context.database, n as int);
        }
        Ok(())
    }

    /// The type a `<->` jump takes once its target is known: a jump to a
    /// section that holds only jumps is an error (the call would never
    /// come back with anything); the special targets do not return, with a
    /// warning.
    fn call_and_back_type(&mut self, database: &Database, resolved: BlockType, line: usize) -> (t: BlockType)
        requires
            database.wf_with(true),
            database.type_refs_ok(resolved, false),
            !(resolved is Section),
        ensures
            final(self).errors@.subrange(0, old(self).errors@.len() as int) == old(self).errors@,
            database.type_refs_ok(t, false),
            !(t is Section),
            final(self).errors@.len() >= old(self).errors@.len(),
            final(self).file_path == old(self).file_path,
            final(self).goto_paths == old(self).goto_paths,
            t == call_and_back_of(resolved),
            match resolved {
                BlockType::GoTo(sid) => {
                    let sec = database.sections@[sid as int];
                    &&& final(self).warnings == old(self).warnings
                    &&& if only_jumps_from(*database, sec.block_id as int, 0, false) {
                        &&& final(self).errors@.len() == old(self).errors@.len() + 1
                        &&& final(self).errors@.drop_last() == old(self).errors@
                        &&& final(self).errors@.last() matches ParseError::EmptySection { name, file, line: l }
                            && name@ == database.strings@[sec.name as int]@ && file == old(self).file_path
                            && l == database.blocks@[sec.block_id as int].line
                    } else {
                        final(self).errors == old(self).errors
                    }
                },
                BlockType::GoToStart | BlockType::GoToRestart | BlockType::GoToEnd => {
                    &&& final(self).errors == old(self).errors
                    &&& final(self).warnings@.len() == old(self).warnings@.len() + 1
                    &&& final(self).warnings@.drop_last() == old(self).warnings@
                    &&& final(self).warnings@.last().message@ == no_return_warning(resolved)
                    &&& final(self).warnings@.last().file == old(self).file_path
                    &&& final(self).warnings@.last().line == line
                },
                _ => final(self).errors == old(self).errors && final(self).warnings == old(self).warnings,
            },
    {
        match resolved {
            BlockType::GoTo(section_id) => {
                let target_section = &database.sections[section_id];
                assert(database.sections@[section_id as int] == *target_section);
                let target_block_id = target_section.block_id;
                if section_has_only_gotos(database, target_block_id) {
                    self.errors.push(ParseError::EmptySection {
                        name: database.strings[target_section.name].clone(),
                        file: self.file_path.clone(),
                        line: database.blocks[target_block_id].line,
                    });
                }
                BlockType::GoToAndBack(section_id)
            },
            BlockType::GoToStart => {
                let message = chars_of("<-> START will not return (restarts from beginning)");
                self.warnings.push(Warning { message: string_from_chars(message.as_slice()), file: self.file_path.clone(), line });
                BlockType::GoToStart
            },
            BlockType::GoToRestart => {
                let message = chars_of("<-> RESTART will not return (clears state and restarts from beginning)");
                self.warnings.push(Warning { message: string_from_chars(message.as_slice()), file: self.file_path.clone(), line });
                BlockType::GoToRestart
            },
            BlockType::GoToEnd => {
                let message = chars_of("<-> END will not return (just end execution)");
                self.warnings.push(Warning { message: string_from_chars(message.as_slice()), file: self.file_path.clone(), line });
                BlockType::GoToEnd
            },
            other => other,
        }
    }
}


/// The type a `<->` jump to `resolved` takes: a jump to a section becomes a
/// call that comes back; any other target stays as it is.
pub open spec fn call_and_back_of(resolved: BlockType) -> BlockType {
    match resolved {
        BlockType::GoTo(sid) => BlockType::GoToAndBack(sid),
        other => other,
    }
}

/// The warning a `<->` jump to a special target gets: it does not return.
pub open spec fn no_return_warning(resolved: BlockType) -> Seq<char> {
    match resolved {
        BlockType::GoToStart => "<-> START will not return (restarts from beginning)"@,
        BlockType::GoToRestart => "<-> RESTART will not return (clears state and restarts from beginning)"@,
        _ => "<-> END will not return (just end execution)"@,
    }
}

/// The display name of the section block `parent_id`, or `<root>` for the
/// start block, no parent, or a block that is not a section.
pub open spec fn parent_display(db: Database, parent_id: Option<BlockId>, start_id: BlockId) -> Seq<char> {
    match parent_id {
        Some(pid) => if pid == start_id {
            "<root>"@
        } else {
            match db.blocks@[pid as int].block_type {
                BlockType::Section(sid) => db.strings@[db.sections@[sid as int].name as int]@,
                _ => "<root>"@,
            }
        },
        None => "<root>"@,
    }
}

impl Parser {
    /// Reads one indented line (its indentation already removed) into the
    /// database: a section header, a jump, a `set` or `require` statement,
    /// an option, or else text. Problems are collected; a line deeper than
    /// the lines before it allow stops the reading with an error.
    #[verifier::rlimit(80)]
    #[verifier::spinoff_prover]
    fn handle_content(&mut self, context: &mut ParserContext, level: usize, content: &[char], start_id: BlockId) -> (r: Result<(), ParseError>)
        requires
            old(self).inv(old(context).database),
            level <= usize::MAX / 2,
            start_id == 0,
        ensures
            final(self).errors@.subrange(0, old(self).errors@.len() as int) == old(self).errors@,
            r is Ok && final(self).errors@.len() == old(self).errors@.len() ==> if line_block(trim(content@)) is Jump {
                &&& final(self).goto_paths@.len() == old(self).goto_paths@.len() + 1
                &&& final(self).goto_paths@.drop_last() == old(self).goto_paths@
                &&& final(self).goto_paths@.last().0 == old(context).database.blocks@.len()
                &&& final(self).goto_paths@.last().1@ == jump_text(trim(content@))
                &&& final(context).database.blocks@.last().block_type is GoTo
            } else {
                final(self).goto_paths == old(self).goto_paths
            },
            r is Ok ==> final(context).database.variables == old(context).database.variables,
            !(line_block(trim(content@)) is Section) ==> final(self).section_names_by_parent == old(self).section_names_by_parent
                && final(self).section_ids_by_parent == old(self).section_ids_by_parent,
            line_block(trim(content@)) is Section && r is Ok && final(self).errors@.len() == old(self).errors@.len() ==> {
                &&& table_views(final(self).section_names_by_parent@) == table_views(old(self).section_names_by_parent@).push(
                    (Some(line_parent(old(self).stacks(), LineBlock::Section, level as int)), header_line_name(trim(content@)), old(context).current_line))
                &&& table_views(final(self).section_ids_by_parent@) == table_views(old(self).section_ids_by_parent@).push(
                    (Some(line_parent(old(self).stacks(), LineBlock::Section, level as int)), header_line_id(trim(content@)), old(context).current_line))
            },
            line_block(trim(content@)) is Section && header_accepted(trim(content@), level as int, old(self).last_section_at_level@,
                table_views(old(self).section_names_by_parent@), table_views(old(self).section_ids_by_parent@))
                ==> r is Ok && final(self).errors@.len() == old(self).errors@.len(),
            r is Ok && final(self).errors@.len() == old(self).errors@.len() ==> if line_block(trim(content@)) is Option {
                final(self).seen_non_option_by_parent == old(self).seen_non_option_by_parent
            } else {
                forall|b: BlockId| #[trigger] final(self).seen_non_option_by_parent@.contains(b) <==> (old(self).seen_non_option_by_parent@.contains(b)
                    || b == line_parent(old(self).stacks(), line_block(trim(content@)), level as int))
            },
            line_block(trim(content@)) is Option ==> final(self).warnings == old(self).warnings,
            line_block(trim(content@)) is Section && !malformed_text(trim(content@)) && !header_accepted(
                trim(content@),
                level as int,
                old(self).last_section_at_level@,
                table_views(old(self).section_names_by_parent@),
                table_views(old(self).section_ids_by_parent@),
            ) ==> r is Ok && final(self).errors@.len() == old(self).errors@.len() + 1 && header_fault(
                trim(content@),
                level as int,
                content@,
                old(self).last_section_at_level@,
                table_views(old(self).section_names_by_parent@),
                table_views(old(self).section_ids_by_parent@),
                parent_display(old(context).database, section_parent_at(old(self).last_section_at_level@, level as int)->Some_0, 0),
                old(self).file_path,
                old(context).current_line,
                final(self).errors@.last(),
            ),
            line_block(trim(content@)) is Assignment || line_block(trim(content@)) is Requirement ==> final(self).warnings
                == old(self).warnings,
            line_block(trim(content@)) is Assignment && r is Ok && final(self).errors@.len() == old(self).errors@.len() ==> (set_line(
                trim(content@),
                old(context).database.variables@,
            ) matches SetLine::Assign(id, v) && final(context).database.blocks@[old(context).database.blocks@.len() as int].block_type
                == BlockType::SetVariable { variable_id: id, value: Value::Integer(v) }),
            line_block(trim(content@)) is Requirement && r is Ok && final(self).errors@.len() == old(self).errors@.len() ==> (require_line(
                trim(content@),
                old(context).database.variables@,
            ) matches RequireLine::Require(id, op, v) && final(context).database.blocks@[old(context).database.blocks@.len() as int].block_type
                == BlockType::RequireVariable { variable_id: id, operator: op, value: Value::Integer(v) }),
            ((line_block(trim(content@)) is Assignment && set_line(trim(content@), old(context).database.variables@) is Assign)
                || (line_block(trim(content@)) is Requirement && require_line(trim(content@), old(context).database.variables@) is Require))
                && stack_admits(
                level as int,
                old(self).last_block_at_level@.len() as int,
                old(self).last_section_at_level@.len() as int,
            ) ==> r is Ok && final(self).errors@.len() == old(self).errors@.len(),
            line_block(trim(content@)) is Section && r is Ok && final(self).errors@.len() == old(self).errors@.len()
                ==> level <= old(self).last_section_at_level@.len(),
            line_block(trim(content@)) is Section && r is Ok && final(self).errors@.len() == old(self).errors@.len()
                ==> section_named(final(context).database, old(context).database.blocks@.len() as int, trim(content@)),
            line_block(trim(content@)) is Option && level > 0 && stack_admits(
                level as int,
                old(self).last_block_at_level@.len() as int,
                old(self).last_section_at_level@.len() as int,
            ) && ({
                let p = line_parent(old(self).stacks(), LineBlock::Option(seq![]), level as int);
                &&& old(context).database.blocks@[p as int].block_type is String || old(context).database.blocks@[p as int].block_type is Option
                &&& !old(self).seen_non_option_by_parent@.contains(p)
            }) ==> r is Ok && final(self).errors@.len() == old(self).errors@.len(),
            (line_block(trim(content@)) is Section || line_block(trim(content@)) is Jump) && !malformed_text(trim(content@))
                ==> warns_items(old(self).warnings@, final(self).warnings@, old(self).file_path,
                line_warnings(trim(content@), old(context).current_line)),
            line_block(trim(content@)) is Jump && !malformed_text(trim(content@)) && stack_admits(
                level as int,
                old(self).last_block_at_level@.len() as int,
                old(self).last_section_at_level@.len() as int,
            ) ==> r is Ok && final(self).errors@.len() == old(self).errors@.len(),
            final(self).inv(final(context).database),
            final(context).current_line == old(context).current_line,
            final(context).file_path == old(context).file_path,
            final(self).file_path == old(self).file_path,
            final(context).database.blocks@.len() >= old(context).database.blocks@.len(),
            r is Ok ==> keeps_blocks(old(context).database, final(context).database),
            final(self).errors@.len() >= old(self).errors@.len(),
            r is Ok && final(self).errors@.len() == old(self).errors@.len() ==> added_one(
                old(context).database,
                final(context).database,
                old(context).current_line,
                level,
            ) && block_matches(
                final(context).database,
                final(context).database.blocks@.len() - 1,
                line_block(trim(content@)),
            ),
            r matches Err(e) ==> (e matches ParseError::InvalidIndentation { file, line, .. } && file == old(self).file_path
                && line == old(context).current_line && level >= 2),
            malformed_text(trim(content@)) ==> r is Err || final(self).errors@.len() > old(self).errors@.len(),
            malformed_text(trim(content@)) ==> r is Err || (final(self).errors@.len() == old(self).errors@.len() + 1
                && text_fault_error(trim(content@), old(context).file_path, old(context).current_line, final(self).errors@.last())),
            line_block(trim(content@)) is Option && level == 0 ==> (r is Ok && final(self).errors@.len() == old(self).errors@.len() + 1
                && (final(self).errors@.last() matches ParseError::OptionsWithoutParent { file, line }
                && file == old(self).file_path && line == old(context).current_line)),
            r is Ok && final(self).errors@.len() == old(self).errors@.len() ==> {
                let k = line_block(trim(content@));
                let n = old(context).database.blocks@.len() as BlockId;
                &&& final(self).last_block_at_level@ == line_stacks(old(self).stacks(), k, level as int, n).blocks
                &&& final(self).last_section_at_level@ == line_stacks(old(self).stacks(), k, level as int, n).sections
                &&& final(context).database.blocks@.last().parent_id == Some(line_parent(old(self).stacks(), k, level as int))
            },
            line_block(trim(content@)) is Text && r is Ok ==> {
                &&& final(context).database.strings@.len() == old(context).database.strings@.len() + 1
                &&& final(context).database.strings@.last()@ == trim(content@)
            },
            line_block(trim(content@)) is Text ==> {
                &&& final(self).errors == old(self).errors
                &&& final(self).warnings == old(self).warnings
                &&& final(self).last_section_at_level == old(self).last_section_at_level
                &&& (r is Ok) == stack_admits(
                    level as int,
                    old(self).last_block_at_level@.len() as int,
                    old(self).last_section_at_level@.len() as int,
                )
                &&& r is Ok ==> final(self).last_block_at_level@.len() == stack_after(
                    level as int,
                    old(self).last_block_at_level@.len() as int,
                    old(self).last_section_at_level@.len() as int,
                )
            },
    {
        let trimmed = trim_chars(content);
        let text = string_from_chars(trimmed.as_slice());
        let section_parser = SectionParser::new();
        match section_parser.parse(text.as_str(), context) {
            Err(e) => {
                self.errors.push(e);
                return Ok(());
            },
            Ok(Some(section)) => {
                proof {
                    let t = trim(content@);
                    assert(header_name(section) == header_line_name(t));
                    assert(header_id(section) == header_line_id(t));
                    lemma_recorded_view(self.section_names_by_parent@, section_parent_at(self.last_section_at_level@, level as int)->Some_0, header_line_name(t));
                    lemma_recorded_view(self.section_ids_by_parent@, section_parent_at(self.last_section_at_level@, level as int)->Some_0, header_line_id(t));
                }
                let ghost w0 = self.warnings@;
                let ghost names_t = self.section_names_by_parent@;
                let ghost ids_t = self.section_ids_by_parent@;
                let ghost db_s = context.database;
                self.add_section(context, level, content, section, start_id);
                proof {
                    let t = trim(content@);
                    if let Some(p) = section_parent_at(old(self).last_section_at_level@, level as int) {
                        let e = self.errors@.last();
                        if recorded(names_t, p, header_line_name(t)) && !(hash_prefix_len(trim_start(t)) > 1 && p == Some(0usize)) {
                            lemma_duplicate_view(e, names_t, db_s, p, header_line_name(t), self.file_path, context.current_line);
                        } else if recorded(ids_t, p, header_line_id(t)) && !(hash_prefix_len(trim_start(t)) > 1 && p == Some(0usize)) {
                            lemma_duplicate_view(e, ids_t, db_s, p, header_line_id(t), self.file_path, context.current_line);
                        }
                    }
                }
                proof {
                    if trim(section.display_name@) != section.display_name@ {
                        lemma_items_one(w0, self.warnings@, self.file_path,
                            (whitespace_warning(section.display_name@, trim(section.display_name@)), context.current_line));
                    } else {
                        lemma_items_none(w0, self.file_path);
                    }
                }
                return Ok(());
            },
            Ok(None) => {},
        }
        let go_to_section_parser = GoToSectionParser::new();
        match go_to_section_parser.parse(text.as_str(), context) {
            Err(e) => {
                self.errors.push(e);
                return Ok(());
            },
            Ok(Some(go_to)) => {
                let ghost w0 = self.warnings@;
                let ghost gp = go_to.path@;
                self.add_jump(context, level, content, go_to.path);
                proof {
                    if trim(gp) == gp {
                        lemma_items_none(w0, self.file_path);
                    }
                }
                return Ok(());
            },
            Ok(None) => {},
        }
        match self.parse_set_statement(trimmed.as_slice(), context.current_line, &context.database) {
            Err(e) => {
                self.errors.push(e);
                return Ok(());
            },
            Ok(Some(statement)) => {
                let block_type = BlockType::SetVariable { variable_id: statement.variable_id, value: statement.value };
                return self.add_statement(context, level, content, block_type);
            },
            Ok(None) => {},
        }
        match self.parse_require_statement(trimmed.as_slice(), context.current_line, &context.database) {
            Err(e) => {
                self.errors.push(e);
                return Ok(());
            },
            Ok(Some(statement)) => {
                let block_type = BlockType::RequireVariable {
                    variable_id: statement.variable_id,
                    operator: statement.operator,
                    value: statement.value,
                };
                return self.add_statement(context, level, content, block_type);
            },
            Ok(None) => {},
        }
        if OptionParser::is_option_line(text.as_str()) {
            self.add_option(context, level, content, text.as_str());
            return Ok(());
        }
        let line_parser = LineParser::new();
        let result = match line_parser.parse(text.as_str(), context) {
            Ok(result) => result,
            Err(e) => return Err(e),
        };
        let ghost db0 = context.database;
        let string_id = context.database.add_string(result.string);
        proof {
            assert(context.database.strings@.drop_last() =~= db0.strings@);
            self.lemma_inv_after_string(db0, context.database);
        }
        self.add_statement(context, level, content, BlockType::String(string_id))
    }

    /// Reads `script` into a database of blocks, with the warnings found.
    ///
    /// The database starts with a start block and ends with an end block;
    /// each other block comes from one line, below the parent the open
    /// blocks and sections give it (see [`expected_parent`]). Jumps are resolved to their
    /// sections. Every problem found is collected: a script with one
    /// problem is refused with it, one with several with all of them. A
    /// script of plain text within the indentation rule (see
    /// [`plain_script`]) is always read, with no warning; a script with a
    /// line that cannot be read (see [`refused_line`]) or a variables block
    /// that is never closed is refused, and unless a line too deep stopped
    /// the reading early (see [`stopped_early`]: then the one error names
    /// the parser's file and that line), each such line's error is among
    /// those reported (see [`faults_reported`]); when the first line that
    /// is not accepted is refused or is a section header that is not
    /// accepted, the first error is that line's (see [`fault_of`]). A script
    /// whose lines the reading accepts one by one, variables block and
    /// statements included (see [`story_script`]), is read, or refused with exactly the errors that
    /// validating the database read from it gives (see [`validated_as`]):
    /// invalid section names, empty sections, jumps without a target; when
    /// it is read, its warnings are those of its lines (stray spaces in a
    /// title or a target) followed by the unreachable-code warnings of its
    /// jumps (see [`warned_as`]).
    #[verifier::rlimit(100)]
    #[verifier::spinoff_prover]
    pub fn parse(&mut self, script: &str) -> (r: Result<(Database, Vec<Warning>), ParseError>)
        ensures
            r matches Ok((db, warnings)) ==> {
                &&& db.wf()
                &&& db.blocks@.len() >= 2
                &&& db.blocks@[0].block_type == BlockType::Start
                &&& db.blocks@[0].parent_id is None
                &&& db.blocks@.last().block_type == BlockType::End
                &&& db.blocks@.last().parent_id is None
                &&& db.blocks@.len() == content_lines(script@).len() + 2
                &&& blocks_follow(db, lines_of(script@), content_lines(script@))
                &&& parents_follow(db, lines_of(script@), content_lines(script@))
                &&& sections_fit(lines_of(script@), content_lines(script@))
                &&& section_names_ok(db)
                &&& forall|i: int| 0 <= i < db.blocks@.len() && (#[trigger] db.blocks@[i]).block_type is Section ==> has_content(db, i)
                &&& variables_follow(db, lines_of(script@), definition_lines(script@))
                &&& statements_follow(db, lines_of(script@), content_lines(script@))
                &&& jumps_resolved(db, lines_of(script@), content_lines(script@))
                &&& registry_views(db.section_registry@) == registry_upto(db, db.blocks@.len() as int)
            },
            plain_script(lines_of(script@)) ==> (r matches Ok((db, warnings)) && warnings@.len() == 0
                && plain_strings(db, lines_of(script@), content_lines(script@))),
            (exists|i: int| #[trigger] refused_line(lines_of(script@), i))
                || scan_lines(lines_of(script@), lines_of(script@).len() as int).in_variables ==> r is Err,
            r matches Err(ParseError::MultipleErrors { errors }) ==> errors@.len() >= 2 && flat_errors(errors@),
            stopped_early(lines_of(script@), old(self).file(), r)
                || faults_reported(lines_of(script@), lines_of(script@).len() as int, old(self).file(), errors_of(r)),
            scan_lines(lines_of(script@), lines_of(script@).len() as int).in_variables ==> stopped_early(lines_of(script@), old(self).file(), r)
                || errors_of(r).contains(ParseError::UnclosedVariablesBlock),
            forall|i: int| 0 <= i < lines_of(script@).len() && story_prefix(lines_of(script@), i) && #[trigger] fault_line(
                lines_of(script@),
                i,
            ) ==> stopped_early(lines_of(script@), old(self).file(), r) || (errors_of(r).len() > 0 && fault_of(
                lines_of(script@),
                i,
                old(self).file(),
                errors_of(r)[0],
            )),
            story_script(lines_of(script@)) ==> r is Ok || forall|k: int|
                0 <= k < errors_of(r).len() ==> validation_error(#[trigger] errors_of(r)[k]),
            story_script(lines_of(script@)) ==> validated_as(
                lines_of(script@),
                content_lines(script@),
                errors_of(r),
                old(self).file(),
            ),
            story_script(lines_of(script@)) && r is Ok ==> warned_as(
                lines_of(script@),
                content_lines(script@),
                r->Ok_0.1@,
                old(self).file(),
            ),
            final(self).file() == old(self).file(),
    {
        self.warnings.clear();
        self.errors.clear();
        self.last_block_at_level.clear();
        self.last_section_at_level.clear();
        self.seen_non_option_by_parent.clear();
        self.section_names_by_parent.clear();
        self.section_ids_by_parent.clear();
        self.goto_paths.clear();
        let mut context = match &self.file_path {
            Some(file_path) => ParserContext::with_file(file_path.clone()),
            None => ParserContext::new(),
        };
        let start_block = Block::new(BlockType::Start, None, 0);
        let ghost empty_db = context.database;
        let ghost start = start_block;
        let start_id = context.database.add_block(start_block);
        proof {
            crate::database::lemma_add_block_wf(empty_db, context.database, start, start_id, true);
        }
        self.last_block_at_level.push(start_id);
        self.last_section_at_level.push(start_id);
        assert(self.inv(context.database));
        let mut in_variables_block = false;
        let mut variables_block_started = false;
        let mut saw_non_variable_content = false;
        let mut seen_variable_names: Vec<(String, usize)> = Vec::new();
        let mut variable_errors: Vec<ParseError> = Vec::new();
        let all_lines = lines(script);
        let separator = chars_of("---");
        let variables_header = chars_of("--- variables");
        let mut index: usize = 0;
        let ghost ls = lines_of(script@);
        assert(scan_lines(ls, 0).contents =~= seq![]);
        assert(scan_lines(ls, 0).definitions =~= seq![]);
        proof {
            reveal(faults_reported);
            lemma_records_start(ls, scan_lines(ls, 0).contents, false);
            lemma_reading_warnings_start(ls, scan_lines(ls, 0).contents);
            lemma_seen_start(self.seen_non_option_by_parent@, ls, scan_lines(ls, 0).contents);
            lemma_fit_start(ls, scan_lines(ls, 0).contents);
            lemma_names_follow_start(context.database, ls, scan_lines(ls, 0).contents);
            lemma_statements_empty(context.database, ls, scan_lines(ls, 0).contents);
            lemma_items_none(self.warnings@, self.file_path);
            assert(self.warnings@ =~= seq![]);
            lemma_records_start(ls, scan_lines(ls, 0).contents, true);
            assert(table_views(self.section_names_by_parent@) =~= seq![]);
            assert(table_views(self.section_ids_by_parent@) =~= seq![]);
        }
        while index < all_lines.len()
            invariant
                self.inv(context.database),
                0 <= index <= all_lines@.len(),
                start_id == 0,
                self.file_path == old(self).file_path,
                ls == lines_of(script@),
                all_lines@.len() == ls.len(),
                forall|i: int| 0 <= i < all_lines@.len() ==> #[trigger] all_lines@[i]@ == ls[i],
                separator@ == "---"@,
                variables_header@ == "--- variables"@,
                in_variables_block == scan_lines(ls, index as int).in_variables,
                variables_block_started == scan_lines(ls, index as int).variables_started,
                saw_non_variable_content == scan_lines(ls, index as int).saw_content,
                self.errors@.len() == 0 ==> {
                    &&& blocks_follow(context.database, ls, scan_lines(ls, index as int).contents)
                    &&& context.database.blocks@.len() == scan_lines(ls, index as int).contents.len() + 1
                },
                variable_errors@.len() > 0 ==> in_variables_block,
                flat_errors(variable_errors@),
                self.errors@.len() == 0 && variable_errors@.len() == 0 ==> variables_follow(
                    context.database,
                    ls,
                    scan_lines(ls, index as int).definitions,
                ),
                self.errors@.len() == 0 ==> jumps_recorded(
                    context.database,
                    ls,
                    scan_lines(ls, index as int).contents,
                    self.goto_paths@,
                ),
                (exists|i: int| 0 <= i < index && #[trigger] refused_line(ls, i)) ==> self.errors@.len() > 0,
                context.file_path == self.file_path,
                faults_reported(ls, index as int, self.file_path, self.errors@),
                self.errors@.len() == 0 ==> {
                    let c = scan_lines(ls, index as int).contents;
                    &&& table_views(self.section_names_by_parent@) == header_records(ls, c, c.len() as int, false)
                    &&& table_views(self.section_ids_by_parent@) == header_records(ls, c, c.len() as int, true)
                },
                story_prefix(ls, index as int) ==> self.errors@.len() == 0 && variable_errors@.len() == 0
                    && seen_names(seen_variable_names@) == declared_names(ls, scan_lines(ls, index as int).definitions),
                self.errors@.len() == 0 ==> seen_follows(self.seen_non_option_by_parent@, ls, scan_lines(ls, index as int).contents),
                self.errors@.len() == 0 ==> sections_fit(ls, scan_lines(ls, index as int).contents),
                self.errors@.len() == 0 ==> section_names_follow(context.database, ls, scan_lines(ls, index as int).contents),
                self.errors@.len() == 0 ==> statements_follow(context.database, ls, scan_lines(ls, index as int).contents),
                forall|i: int| 0 <= i < index && story_prefix(ls, i) && #[trigger] fault_line(ls, i) ==> self.errors@.len() > 0
                    && fault_of(ls, i, self.file_path, self.errors@[0]),
                story_prefix(ls, index as int) ==> warns_items(seq![], self.warnings@, self.file_path, reading_warnings(
                    ls,
                    scan_lines(ls, index as int).contents,
                    scan_lines(ls, index as int).contents.len() as int,
                )),
                self.errors@.len() == 0 ==> {
                    let c = scan_lines(ls, index as int).contents;
                    &&& self.last_block_at_level@ == stacks_after(ls, c, c.len() as int).blocks
                    &&& self.last_section_at_level@ == stacks_after(ls, c, c.len() as int).sections
                    &&& parents_follow(context.database, ls, c)
                },
                plain_script(ls) ==> plain_strings(context.database, ls, scan_lines(ls, index as int).contents),
                plain_script(ls) ==> {
                    &&& !in_variables_block
                    &&& self.errors@.len() == 0
                    &&& self.warnings@.len() == 0
                    &&& variable_errors@.len() == 0
                    &&& self.last_section_at_level@.len() == 1
                    &&& self.last_block_at_level@.len() == open_depth(ls, index as int)
                    &&& forall|j: int| 0 <= j < context.database.blocks@.len()
                        ==> ((#[trigger] context.database.blocks@[j]).block_type is Start
                            || context.database.blocks@[j].block_type is String)
                },
            decreases all_lines.len() - index,
        {
            context.current_line = index + 1;
            let ghost e_start = self.errors@.len();
            let ghost es = self.errors@;
            let ghost mut witness: int = -1;
            let line = &all_lines[index];
            let trimmed = trim_chars(line.as_slice());
            let line_text = string_from_chars(line.as_slice());
            if in_variables_block {
                if chars_eq(trimmed.as_slice(), separator.as_slice()) {
                    in_variables_block = false;
                    self.errors.append(&mut variable_errors);
                } else if trimmed.len() > 0 && !Self::is_comment(line_text.as_str()) {
                    let ghost db0 = context.database;
                    let ghost seen0 = seen_variable_names@;
                    proof {
                        if story_prefix(ls, index + 1) {
                            assert(readable_line(ls, index as int));
                            lemma_readable(ls, index as int);
                            lemma_declared_seen(seen0, int_definition(trim(ls[index as int]))->Some_0.0);
                        }
                    }
                    match self.parse_variable_definition(
                        trimmed.as_slice(),
                        context.current_line,
                        &mut context.database,
                        &mut seen_variable_names,
                    ) {
                        Ok(()) => {
                            proof {
                                if self.errors@.len() == 0 && variable_errors@.len() == 0 {
                                    assert(context.database.variables@.drop_last() =~= db0.variables@);
                                    lemma_variables_follow_push(
                                        db0,
                                        context.database,
                                        ls,
                                        scan_lines(ls, index as int).definitions,
                                        index as int,
                                    );
                                }
                            }
                        },
                        Err(error) => variable_errors.push(error),
                    }
                    proof {
                        if story_prefix(ls, index + 1) {
                            let defs = scan_lines(ls, index as int).definitions;
                            let name = int_definition(trim(ls[index as int]))->Some_0.0;
                            assert(trimmed@ == trim(ls[index as int]));
                            assert(seen_variable_names@.len() == seen0.len() + 1);
                            assert(seen_variable_names@.drop_last() == seen0);
                            assert(seen_variable_names@.last().0@ == name);
                            assert(seen_names(seen_variable_names@) =~= seen_names(seen0).push(name)) by {
                                assert forall|k: int| 0 <= k < seen0.len() implies seen_variable_names@[k] == seen0[k] by {
                                    assert(seen_variable_names@.drop_last()[k] == seen_variable_names@[k]);
                                }
                            }
                            assert(declared_names(ls, defs.push(index as int)) =~= declared_names(ls, defs).push(name));
                        }
                        assert forall|i: int| 0 <= i < context.database.blocks@.len() implies context.database.blocks@[i] == db0.blocks@[i] by {}
                        if self.errors@.len() == 0 {
                            lemma_follow_kept(db0, context.database, ls, scan_lines(ls, index as int).contents);
                            lemma_jumps_kept(db0, context.database, ls, scan_lines(ls, index as int).contents, self.goto_paths@);
                            lemma_names_follow_kept(db0, context.database, ls, scan_lines(ls, index as int).contents);
                            lemma_scan_block_first(ls, index as int);
                            lemma_statements_empty(context.database, ls, scan_lines(ls, index as int).contents);
                        }
                    }
                }
            } else if !variables_block_started && !saw_non_variable_content
                && chars_eq(trimmed.as_slice(), variables_header.as_slice()) {
                in_variables_block = true;
                variables_block_started = true;
            } else if Self::is_comment(line_text.as_str()) || trimmed.len() == 0 {
            } else if chars_eq(trimmed.as_slice(), variables_header.as_slice()) {
                self.errors.push(ParseError::VariablesBlockNotAtTop { line: context.current_line });
                proof {
                    witness = es.len() as int;
                }
            } else {
                saw_non_variable_content = true;
                let _width = line.len();
                match self.parse_indentation(line.as_slice(), context.current_line) {
                    Err(e) => {
                        self.errors.push(e);
                        proof {
                            witness = es.len() as int;
                        }
                    },
                    Ok((level, content)) => {
                        let ghost db0 = context.database;
                        let ghost errors0 = self.errors@.len();
                        let ghost paths0 = self.goto_paths@;
                        let ghost depth0 = self.last_block_at_level@.len();
                        let ghost stacks0 = self.stacks();
                        let ghost names0 = table_views(self.section_names_by_parent@);
                        let ghost wb0 = self.warnings@;
                        let ghost seen0 = self.seen_non_option_by_parent@;
                        let ghost ids0 = table_views(self.section_ids_by_parent@);
                        proof {
                            assert(content_text(ls[index as int], level) == trim(content@));
                            if plain_script(ls) {
                                assert(trim(ls[index as int]) != "--- variables"@);
                                assert(text_level(ls[index as int]) == Some(level as nat));
                            }
                        }
                        assert(forall|k: int| 0 <= k < paths0.len() ==> (#[trigger] paths0[k]).0 < db0.blocks@.len());
                        match self.handle_content(&mut context, level, content.as_slice(), start_id) {
                            Ok(()) => {},
                            Err(e) => {
                                proof {
                                    let i = index as int;
                                    assert(0 <= i < ls.len() && !is_quiet_line(ls[i]) && indentation(ls[i]) == Indentation::Level(level as nat));
                                    assert(self.file_path == old(self).file_path);
                                            if story_prefix(ls, ls.len() as int) {
                                        assert(readable_line(ls, i));
                                        lemma_readable(ls, i);
                                        let c = scan_lines(ls, i).contents;
                                        let st = stacks_after(ls, c, c.len() as int);
                                        if line_block(content_text(ls[i], level)) is Option {
                                            let p = line_parent(st, LineBlock::Option(seq![]), level as int);
                                            lemma_parent_holds(db0, ls, c, p as int);
                                            lemma_seen_not(seen0, ls, c, p);
                                        }
                                        let defs = scan_lines(ls, i).definitions;
                                        if line_block(content_text(ls[i], level)) is Assignment {
                                            lemma_set_ok(content_text(ls[i], level), db0, ls, defs);
                                        }
                                        if line_block(content_text(ls[i], level)) is Requirement {
                                            lemma_require_ok(content_text(ls[i], level), db0, ls, defs);
                                        }
                                    }
                                }
                                return Err(e);
                            },
                        }
                        proof {
                            if self.errors@.len() == 0 {
                                let c = scan_lines(ls, index as int).contents;
                                assert(line_level(ls[index as int]) == level);
                                lemma_records_step(ls, c, index as int, false, names0, table_views(self.section_names_by_parent@), stacks0, level as int);
                                lemma_records_step(ls, c, index as int, true, ids0, table_views(self.section_ids_by_parent@), stacks0, level as int);
                                lemma_seen_step(ls, c, index as int, seen0, self.seen_non_option_by_parent@, stacks0, level as int);
                                lemma_fit_step(ls, c, index as int, level as int);
                                lemma_names_follow_step(db0, context.database, ls, c, index as int, level as int);
                                lemma_statements_step(db0, context.database, ls, c, index as int, level as int);
                            }
                            if story_prefix(ls, index + 1) {
                                assert(readable_line(ls, index as int));
                                lemma_readable(ls, index as int);
                                let c = scan_lines(ls, index as int).contents;
                                let t = content_text(ls[index as int], level);
                                if line_block(t) is Option {
                                    let p = line_parent(stacks0, LineBlock::Option(seq![]), level as int);
                                    lemma_parent_holds(db0, ls, c, p as int);
                                    lemma_seen_not(seen0, ls, c, p);
                                }
                                let defs = scan_lines(ls, index as int).definitions;
                                if line_block(t) is Assignment {
                                    lemma_set_ok(t, db0, ls, defs);
                                }
                                if line_block(t) is Requirement {
                                    lemma_require_ok(t, db0, ls, defs);
                                }
                                if line_block(t) is Text || line_block(t) is Option || line_block(t) is Assignment
                                    || line_block(t) is Requirement {
                                    lemma_items_none(wb0, self.file_path);
                                }
                                assert(line_level(ls[index as int]) == level);
                                lemma_items_chain(seq![], wb0, self.warnings@, self.file_path, reading_warnings(ls, c, c.len() as int),
                                    line_warnings(t, (index + 1) as usize));
                                lemma_reading_warnings_step(ls, c, index as int);
                            }
                        }
                        proof {
                            let i = index as int;
                            if story_prefix(ls, i) && fault_line(ls, i) && !refused_line(ls, i) {
                                reveal(fault_line);
                                let c = scan_lines(ls, i).contents;
                                assert(line_level(ls[i]) == level);
                                assert(es.len() == 0);
                                assert(db0.blocks@.len() == c.len() + 1);
                                assert(db0.blocks.len() == db0.blocks@.len());
                                if section_parent_at(stacks0.sections, level as int) is Some {
                                    lemma_parent_title(db0, ls, c, level as int);
                                }
                                reveal(fault_of);
                                assert(self.errors@[0] == self.errors@.last());
                                assert(fault_of(ls, i, self.file_path, self.errors@[0]));
                            }
                        }
                        proof {
                            if malformed_text(trim(content@)) || (level == 0 && line_block(trim(content@)) is Option) {
                                witness = es.len() as int;
                            }
                        }
                        proof {
                            if plain_script(ls) {
                                let c = scan_lines(ls, index as int).contents;
                                let c2 = c.push(index as int);
                                assert(line_level(ls[index as int]) == level);
                                assert forall|j: int| 0 <= j < c2.len() implies (#[trigger] context.database.strings@[j])@
                                    == content_text(ls[c2[j]], line_level(ls[c2[j]]) as usize) by {
                                    if j < c.len() {
                                        assert(c2[j] == c[j]);
                                        assert(context.database.strings@[j] == db0.strings@[j]);
                                    }
                                }
                                assert(self.last_block_at_level@.len() == open_depth(ls, index + 1));
                                assert forall|j: int| 0 <= j < context.database.blocks@.len()
                                    implies ((#[trigger] context.database.blocks@[j]).block_type is Start
                                        || context.database.blocks@[j].block_type is String) by {
                                    if j < db0.blocks@.len() {
                                        assert(db0.blocks@[j].block_type is Start || db0.blocks@[j].block_type is String);
                                    }
                                }
                            }
                            if self.errors@.len() == 0 {
                                assert(errors0 == 0);
                                assert(content_text(ls[index as int], level) == trim(content@));
                                lemma_follow_added(
                                    db0,
                                    context.database,
                                    ls,
                                    scan_lines(ls, index as int).contents,
                                    index as int,
                                    level,
                                );
                                lemma_jumps_added(
                                    db0,
                                    context.database,
                                    ls,
                                    scan_lines(ls, index as int).contents,
                                    paths0,
                                    self.goto_paths@,
                                    index as int,
                                    level,
                                );
                                assert(scan_lines(ls, index + 1).contents == scan_lines(ls, index as int).contents.push(
                                    index as int,
                                ));
                                lemma_parents_added(
                                    db0,
                                    context.database,
                                    ls,
                                    scan_lines(ls, index as int).contents,
                                    index as int,
                                    level as int,
                                    stacks0,
                                );
                            }
                        }
                    },
                }
            }
            proof {
                assert(forall|k: int| 0 <= k < es.len() ==> #[trigger] self.errors@[k] == es[k]) by {
                    assert forall|k: int| 0 <= k < es.len() implies #[trigger] self.errors@[k] == es[k] by {
                        assert(self.errors@.subrange(0, es.len() as int)[k] == self.errors@[k]);
                    }
                }
                assert(refused_line(ls, index as int) ==> 0 <= witness < self.errors@.len()
                    && line_fault_error(ls, index as int, self.file_path, self.errors@[witness]));
                lemma_faults_step(ls, index as int, self.file_path, es, self.errors@, witness);
                assert forall|i: int| 0 <= i < index + 1 && story_prefix(ls, i) && #[trigger] fault_line(ls, i) implies self.errors@.len() > 0
                    && fault_of(ls, i, self.file_path, self.errors@[0]) by {
                    if i == index {
                        if refused_line(ls, i) {
                            assert(es.len() == 0);
                            reveal(fault_of);
                        } else {
                            reveal(fault_line);
                        }
                    } else {
                        assert(self.errors@[0] == es[0]);
                    }
                }
                if story_prefix(ls, index + 1) {
                    assert(readable_line(ls, index as int));
                    lemma_readable(ls, index as int);
                }
                assert(self.errors@.len() >= e_start);
                assert(refused_line(ls, index as int) ==> self.errors@.len() > e_start);
                if exists|i: int| 0 <= i < index + 1 && #[trigger] refused_line(ls, i) {
                    let w = choose|i: int| 0 <= i < index + 1 && #[trigger] refused_line(ls, i);
                    if w < index {
                        assert(0 <= w < index && refused_line(ls, w));
                    }
                }
            }
            index = index + 1;
        }
        let ghost loop_errors = self.errors@;
        if in_variables_block {
            self.errors.push(ParseError::UnclosedVariablesBlock);
        }
        proof {
            assert(forall|k: int| 0 <= k < loop_errors.len() ==> #[trigger] self.errors@[k] == loop_errors[k]);
            lemma_faults_kept(ls, ls.len() as int, self.file_path, loop_errors, self.errors@);
            if in_variables_block {
                assert(self.errors@[self.errors@.len() - 1] == ParseError::UnclosedVariablesBlock);
            }
        }
        let ghost before_end_errors = self.errors@;
        let end_block = Block::new(BlockType::End, None, 0);
        let ghost before_end = context.database;
        let ghost end = end_block;
        let end_id = context.database.add_block(end_block);
        proof {
            self.lemma_inv_after_add(before_end, context.database, end, end_id);
            if self.errors@.len() == 0 {
                lemma_follow_kept(before_end, context.database, ls, scan_lines(ls, index as int).contents);
                lemma_jumps_kept(before_end, context.database, ls, scan_lines(ls, index as int).contents, self.goto_paths@);
                lemma_names_follow_kept(before_end, context.database, ls, scan_lines(ls, index as int).contents);
                lemma_statements_kept(before_end, context.database, ls, scan_lines(ls, index as int).contents);
            }
        }
        let ghost before_validation = context.database;
        let ghost errors_before = self.errors@.len();
        let ghost paths_before = self.goto_paths@;
        proof {
            if plain_script(ls) {
                assert forall|j: int| 0 <= j < context.database.blocks@.len()
                    implies !((#[trigger] context.database.blocks@[j]).block_type is Section)
                        && !(context.database.blocks@[j].block_type is GoTo)
                        && !(context.database.blocks@[j].block_type is GoToAndBack) by {
                    if j < before_end.blocks@.len() {
                        assert(before_end.blocks@[j].block_type is Start || before_end.blocks@[j].block_type is String);
                    }
                }
            }
        }
        let ghost errors_seq = self.errors@;
        let ghost warnings_before = self.warnings@;
        match self.validate_and_resolve(&mut context) {
            Ok(()) => {},
            Err(e) => return Err(e),
        }
        proof {
            assert forall|i: int| 0 <= i < ls.len() && story_prefix(ls, i) && #[trigger] fault_line(ls, i) implies self.errors@.len() > 0
                && fault_of(ls, i, self.file_path, self.errors@[0]) by {
                assert(loop_errors.len() > 0);
                assert(self.errors@[0] == loop_errors[0]);
            }
        }
        proof {
            if story_script(ls) {
                assert(validated_as(ls, scan_lines(ls, index as int).contents, self.errors@, self.file_path)
                    && forall|k: int| 0 <= k < self.errors@.len() ==> validation_error(#[trigger] self.errors@[k])) by {
                    assert(errors_seq.len() == 0);
                    assert(errors_seq =~= seq![]);
                    lemma_validation_kinds(errors_seq, self.errors@, before_validation, context.database, paths_before, self.file_path);
                    let c = scan_lines(ls, index as int).contents;
                    assert(before_validation.blocks@.len() == c.len() + 2);
                    assert(before_validation.tree_wf());
                    assert(blocks_follow(before_validation, ls, c));
                    assert(parents_follow(before_validation, ls, c));
                    assert(jumps_recorded(before_validation, ls, c, paths_before));
                    assert(same_skeleton(context.database, before_validation));
                    assert(registry_views(context.database.section_registry@) == registry_upto(context.database, context.database.blocks@.len() as int));
                    assert(read_for_validation(ls, c, before_validation, context.database, paths_before));
                    lemma_validated_as(ls, c, self.errors@, self.file_path, before_validation, context.database, paths_before);
                }
                assert(warned_as(ls, scan_lines(ls, index as int).contents, self.warnings@, self.file_path)) by {
                    let c = scan_lines(ls, index as int).contents;
                    assert(read_for_validation(ls, c, before_validation, context.database, paths_before)) by {
                        assert(same_skeleton(context.database, before_validation));
                    }
                    lemma_warned_as(ls, c, self.warnings@, self.file_path, before_validation, context.database, paths_before, warnings_before);
                }
            }
        }
        proof {
            lemma_faults_kept(ls, ls.len() as int, self.file_path, before_end_errors, self.errors@);
            if in_variables_block {
                let k = before_end_errors.len() - 1;
                assert(self.errors@[k] == before_end_errors[k]);
                assert(self.errors@.contains(ParseError::UnclosedVariablesBlock));
            }
        }
        proof {
            if self.errors@.len() == 0 {
                lemma_statements_kept(before_validation, context.database, ls, scan_lines(ls, index as int).contents);
                lemma_jumps_resolved(
                    before_validation,
                    context.database,
                    ls,
                    scan_lines(ls, index as int).contents,
                    paths_before,
                );
            }
        }
        proof {
            assert(context.database.blocks@[end_id as int].block_type == BlockType::End);
            assert(context.database.blocks@[0].block_type == BlockType::Start);
        }
        if self.errors.len() > 0 {
            let mut errors: Vec<ParseError> = Vec::new();
            std::mem::swap(&mut errors, &mut self.errors);
            assert(self.file_path == old(self).file_path);
            if errors.len() == 1 {
                proof {
                    assert(errors@ =~= seq![errors@[0]]);
                }
                let ghost all = errors@;
                let first = errors.remove(0);
                let r: Result<(Database, Vec<Warning>), ParseError> = Err(first);
                proof {
                    if story_script(ls) {
                        assert(validation_error(all[0]));
                        assert(errors_of(r) == all);
                    }
                    assert(!(all[0] is MultipleErrors));
                    assert(errors_of(r)[0] == all[0]);
                }
                return r;
            } else {
                return Err(ParseError::MultipleErrors { errors });
            }
        }
        proof {
            reveal(faults_reported);
            assert(self.errors@ =~= seq![]);
        }
        let mut warnings: Vec<Warning> = Vec::new();
        std::mem::swap(&mut warnings, &mut self.warnings);
        Ok((context.database, warnings))
    }
}

impl Default for Parser {
    /// A reader for scripts that do not come from a file.
    fn default() -> (p: Self)
        ensures
            p.file() is None,
    {
        Parser::new()
    }
}

} // verus!
