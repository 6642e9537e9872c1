//! Variable declarations: identifier rules and constant folding of defaults.
use vstd::prelude::*;

use crate::arithmetic::{vars_ok, VariableResolver};
use crate::expression::{
    expression_outcome, lemma_outcome_congruent, parse_expression_chars, ExprOutcome, ParseExpressionError,
};
use crate::arithmetic::same_resolution;
use crate::model::{eval, evaluate, vars_below, EvaluationError, Expression, Value, VariableId};
use crate::model::ValueKind;
use crate::database::{Database, Variable};
use crate::parser::{name_and_default, split_name_default};
use crate::string_literal::{scan_body, scan_literal_chars, LiteralScan, StringLiteralError};
use crate::text::{
    is_whitespace, push_all, split_chars, split_on, word_end, split_whitespace_chars, trim_chars, words_from, string_from_chars, chars_eq, chars_of, has_prefix, is_alnum, is_alpha, slice_chars, starts_with, str_eq, trim, trim_start,
    trim_start_chars,
};

verus! {

/// Whether `name` is a valid identifier: a letter or `_`, then letters,
/// digits or `_` (ASCII only).
pub open spec fn valid_identifier(name: Seq<char>) -> bool {
    &&& name.len() > 0
    &&& (is_alpha(name[0]) || name[0] == '_')
    &&& forall|i: int| 1 <= i < name.len() ==> (is_alnum(#[trigger] name[i]) || name[i] == '_')
}

/// Whether `name` is a reserved logical keyword (lowercase only).
pub open spec fn reserved_keyword(name: Seq<char>) -> bool {
    name == "and"@ || name == "or"@ || name == "not"@
}

pub fn is_valid_identifier(name: &str) -> (b: bool)
    ensures
        b == valid_identifier(name@),
{
    let chars = chars_of(name);
    valid_identifier_chars(chars.as_slice())
}

/// [`is_valid_identifier`] on characters.
pub(crate) fn valid_identifier_chars(chars: &[char]) -> (b: bool)
    ensures
        b == valid_identifier(chars@),
{
    if chars.len() == 0 {
        return false;
    }
    let first = chars[0];
    if !(crate::text::is_ascii_alphabetic(first) || first == '_') {
        return false;
    }
    let mut i: usize = 1;
    while i < chars.len()
        invariant
            1 <= i <= chars@.len(),
            forall|j: int| 1 <= j < i ==> (is_alnum(#[trigger] chars@[j]) || chars@[j] == '_'),
        decreases chars.len() - i,
    {
        let c = chars[i];
        if !(crate::text::is_ascii_alphanumeric(c) || c == '_') {
            return false;
        }
        i = i + 1;
    }
    true
}

/// True for the lowercase logical keywords, which cannot name variables.
/// Uppercase variants are ordinary identifiers.
pub fn is_reserved_keyword(name: &str) -> (b: bool)
    ensures
        b == reserved_keyword(name@),
{
    str_eq(name, "and") || str_eq(name, "or") || str_eq(name, "not")
}

/// [`is_reserved_keyword`] on characters.
pub(crate) fn reserved_chars(w: &[char]) -> (b: bool)
    ensures
        b == reserved_keyword(w@),
{
    let a = chars_of("and");
    let o = chars_of("or");
    let n = chars_of("not");
    chars_eq(w, a.as_slice()) || chars_eq(w, o.as_slice()) || chars_eq(w, n.as_slice())
}

/// The first entry named `name`, if any.
pub open spec fn first_named(entries: Seq<(String, i64)>, name: Seq<char>) -> Option<VariableId> {
    if exists|i: int| 0 <= i < entries.len() && #[trigger] entries[i].0@ == name {
        let i = choose|i: int|
            0 <= i < entries.len() && #[trigger] entries[i].0@ == name && forall|j: int|
                0 <= j < i ==> entries[j].0@ != name;
        Some(i as VariableId)
    } else {
        None
    }
}

proof fn lemma_first_named(entries: Seq<(String, i64)>, name: Seq<char>, k: int)
    requires
        0 <= k < entries.len(),
        entries[k].0@ == name,
        forall|j: int| 0 <= j < k ==> entries[j].0@ != name,
    ensures
        first_named(entries, name) == Some(k as VariableId),
{
    let w = choose|w: int|
        0 <= w < entries.len() && #[trigger] entries[w].0@ == name && forall|j: int|
            0 <= j < w ==> entries[j].0@ != name;
    assert(entries[k].0@ == name);
    if w < k {
        assert(entries[w].0@ != name);
    } else if w > k {
        assert(entries[k].0@ != name);
    }
}

/// Known variables resolve by name to their position (the first entry wins).
impl VariableResolver for Vec<(String, i64)> {
    open spec fn resolves(&self, name: Seq<char>) -> Option<VariableId> {
        first_named(self@, name)
    }

    fn resolve(&self, name: &str) -> (r: Option<VariableId>) {
        let mut i: usize = 0;
        while i < self.len()
            invariant
                0 <= i <= self@.len(),
                forall|j: int| 0 <= j < i ==> self@[j].0@ != name@,
            decreases self.len() - i,
        {
            if str_eq(self[i].0.as_str(), name) {
                proof {
                    lemma_first_named(self@, name@, i as int);
                }
                return Some(i);
            }
            i = i + 1;
        }
        None
    }

    /// Every known variable holds an integer.
    open spec fn flags(&self, id: VariableId) -> bool {
        false
    }

    fn is_flag(&self, id: VariableId) -> (b: bool) {
        false
    }
}

/// Errors of constant-folding a default expression.
#[derive(Debug, Clone, PartialEq, Eq)]
pub enum EvalError {
    Malformed,
    /// A literal exceeded the `i64` range; carries its text with any sign.
    LiteralOverflow { literal: String },
    UndefinedVariable { name: String },
    DivisionByZero,
    /// Arithmetic overflowed while folding.
    Overflow,
}

/// The values of the known variables, by position.
pub open spec fn known_values(entries: Seq<(String, i64)>) -> Seq<Value> {
    entries.map_values(|e: (String, i64)| Value::Integer(e.1))
}

/// What folding a default expression yields, as a mathematical value.
pub enum FoldOutcome {
    Value(i64),
    Malformed,
    LiteralOverflow(Seq<char>),
    Undefined(Seq<char>),
    DivisionByZero,
    Overflow,
    /// The expression folds to a value that is not an integer (a boolean
    /// literal, or arithmetic on one), which an integer default cannot
    /// hold; such a declaration is outside what the block reader accepts.
    NonInteger,
}

/// Folding `s` against the integer variables `known`.
pub open spec fn fold_outcome(s: Seq<char>, known: Vec<(String, i64)>) -> FoldOutcome {
    match expression_outcome(s, known) {
        ExprOutcome::Malformed => FoldOutcome::Malformed,
        ExprOutcome::Overflow(t) => FoldOutcome::LiteralOverflow(t),
        ExprOutcome::UndefinedVariable(n) => FoldOutcome::Undefined(n),
        ExprOutcome::Parsed(e) => match eval(e, known_values(known@)) {
            Ok(Value::Integer(n)) => FoldOutcome::Value(n),
            Err(EvaluationError::DivisionByZero) => FoldOutcome::DivisionByZero,
            Err(EvaluationError::Overflow) => FoldOutcome::Overflow,
            _ => FoldOutcome::NonInteger,
        },
    }
}

/// Whether folding the default `s` would reach a non-integer value.
pub open spec fn folds_to_non_integer(s: Seq<char>, known: Vec<(String, i64)>) -> bool {
    fold_outcome(s, known) is NonInteger
}

/// Whether `r` is what folding `s` against `known` gives.
pub open spec fn fold_agrees(s: Seq<char>, known: Vec<(String, i64)>, r: Result<i64, EvalError>) -> bool {
    match fold_outcome(s, known) {
        FoldOutcome::Value(n) => r == Ok::<i64, EvalError>(n),
        FoldOutcome::Malformed => r matches Err(EvalError::Malformed),
        FoldOutcome::LiteralOverflow(t) => r matches Err(EvalError::LiteralOverflow { literal }) && literal@ == t,
        FoldOutcome::Undefined(n) => r matches Err(EvalError::UndefinedVariable { name }) && name@ == n,
        FoldOutcome::DivisionByZero => r matches Err(EvalError::DivisionByZero),
        FoldOutcome::Overflow => r matches Err(EvalError::Overflow),
        FoldOutcome::NonInteger => true,
    }
}

/// Constant-fold a default expression against the integer values declared
/// earlier in the same block, with checked integer arithmetic.
pub fn evaluate_expression(expression: &str, known_variables: &Vec<(String, i64)>) -> (r: Result<i64, EvalError>)
    requires
        !folds_to_non_integer(expression@, *known_variables),
    ensures
        fold_agrees(expression@, *known_variables, r),
{
    let chars = chars_of(expression);
    fold_chars(chars.as_slice(), known_variables)
}

/// [`evaluate_expression`] on an expression held as characters.
fn fold_chars(expression: &[char], known_variables: &Vec<(String, i64)>) -> (r: Result<i64, EvalError>)
    requires
        !folds_to_non_integer(expression@, *known_variables),
    ensures
        fold_agrees(expression@, *known_variables, r),
{
    let ast = match parse_expression_chars(expression, known_variables) {
        Ok(ast) => ast,
        Err(ParseExpressionError::Malformed) => return Err(EvalError::Malformed),
        Err(ParseExpressionError::Overflow { literal }) => return Err(EvalError::LiteralOverflow { literal }),
        Err(ParseExpressionError::UndefinedVariable { name }) => return Err(EvalError::UndefinedVariable { name }),
    };
    let mut values: Vec<Value> = Vec::new();
    let mut i: usize = 0;
    while i < known_variables.len()
        invariant
            0 <= i <= known_variables@.len(),
            values@ == known_values(known_variables@).take(i as int),
        decreases known_variables.len() - i,
    {
        values.push(Value::Integer(known_variables[i].1));
        i = i + 1;
        assert(values@ =~= known_values(known_variables@).take(i as int));
    }
    assert(values@ =~= known_values(known_variables@));
    assert(known_variables@.len() <= usize::MAX);
    proof {
        lemma_known_vars_below(ast, *known_variables);
    }
    match evaluate(&ast, &values) {
        Ok(Value::Integer(n)) => Ok(n),
        Err(EvaluationError::DivisionByZero) => Err(EvalError::DivisionByZero),
        Err(EvaluationError::Overflow) => Err(EvalError::Overflow),
        _ => Err(EvalError::Malformed),
    }
}

proof fn lemma_first_named_below(entries: Seq<(String, i64)>, name: Seq<char>)
    requires
        entries.len() <= usize::MAX,
    ensures
        first_named(entries, name) matches Some(id) ==> id < entries.len(),
{
    if exists|i: int| 0 <= i < entries.len() && #[trigger] entries[i].0@ == name {
        let k = choose|k: int| 0 <= k < entries.len() && #[trigger] entries[k].0@ == name;
        lemma_first_exists(entries, name, k);
        let i = choose|i: int|
            0 <= i < entries.len() && #[trigger] entries[i].0@ == name && forall|j: int|
                0 <= j < i ==> entries[j].0@ != name;
        assert(0 <= i < entries.len());
        assert((i as VariableId) as int == i);
    }
}

proof fn lemma_first_exists(entries: Seq<(String, i64)>, name: Seq<char>, k: int)
    requires
        0 <= k < entries.len(),
        entries[k].0@ == name,
    ensures
        exists|i: int|
            0 <= i < entries.len() && #[trigger] entries[i].0@ == name && forall|j: int|
                0 <= j < i ==> entries[j].0@ != name,
    decreases k,
{
    if exists|j: int| 0 <= j < k && entries[j].0@ == name {
        let j = choose|j: int| 0 <= j < k && entries[j].0@ == name;
        lemma_first_exists(entries, name, j);
    } else {
        assert(forall|j: int| 0 <= j < k ==> entries[j].0@ != name);
    }
}

/// Variables that the known-variable list resolves lie within it.
proof fn lemma_known_vars_below(e: Expression, known: Vec<(String, i64)>)
    requires
        vars_ok(e, known),
        known@.len() <= usize::MAX,
    ensures
        vars_below(e, known_values(known@).len()),
    decreases e,
{
    match e {
        Expression::Variable(id) => {
            let n = choose|n: Seq<char>| known.resolves(n) == Some(id);
            lemma_first_named_below(known@, n);
        },
        Expression::Binary { left, right, .. } => {
            lemma_known_vars_below(*left, known);
            lemma_known_vars_below(*right, known);
        },
        Expression::Literal(_) => {},
    }
}


// ---------------------------------------------------------------------------
// Variable blocks: the model
// ---------------------------------------------------------------------------

/// A default value, as a mathematical value.
pub enum ValueModel {
    Int(i64),
    Bool(bool),
    Str(Seq<char>),
    /// An enumeration: its variants, separated by commas.
    Variants(Seq<char>),
}

/// The mathematical value of `v`.
pub open spec fn model_of(v: Value) -> ValueModel {
    match v {
        Value::Integer(n) => ValueModel::Int(n),
        Value::Boolean(b) => ValueModel::Bool(b),
        Value::String(s) => ValueModel::Str(s@),
        Value::Enum { variants, .. } => ValueModel::Variants(variants@),
        Value::EnumUnset { variants } => ValueModel::Variants(variants@),
    }
}

/// The kind of a modelled value.
pub open spec fn model_kind(m: ValueModel) -> ValueKind {
    match m {
        ValueModel::Int(_) => ValueKind::Integer,
        ValueModel::Bool(_) => ValueKind::Boolean,
        ValueModel::Str(_) => ValueKind::String,
        ValueModel::Variants(_) => ValueKind::Enum,
    }
}

/// The declared variables as names and modelled values.
pub open spec fn pairs_model(declared: Seq<(String, Value)>) -> Seq<(Seq<char>, ValueModel)> {
    declared.map_values(|e: (String, Value)| (e.0@, model_of(e.1)))
}

/// The position of the variable named `n`, if declared (the first wins).
pub open spec fn position_of(pairs: Seq<(Seq<char>, ValueModel)>, n: Seq<char>) -> Option<int> {
    if exists|i: int| 0 <= i < pairs.len() && #[trigger] pairs[i].0 == n {
        Some(
            choose|i: int|
                0 <= i < pairs.len() && #[trigger] pairs[i].0 == n && forall|j: int|
                    0 <= j < i ==> pairs[j].0 != n,
        )
    } else {
        None
    }
}

proof fn lemma_position_of(pairs: Seq<(Seq<char>, ValueModel)>, n: Seq<char>, k: int)
    requires
        0 <= k < pairs.len(),
        pairs[k].0 == n,
        forall|j: int| 0 <= j < k ==> pairs[j].0 != n,
    ensures
        position_of(pairs, n) == Some(k),
{
    let w = choose|w: int|
        0 <= w < pairs.len() && #[trigger] pairs[w].0 == n && forall|j: int| 0 <= j < w ==> pairs[j].0 != n;
    assert(pairs[k].0 == n);
    if w < k {
        assert(pairs[w].0 != n);
    } else if w > k {
        assert(pairs[k].0 != n);
    }
}

proof fn lemma_position_minimal(pairs: Seq<(Seq<char>, ValueModel)>, n: Seq<char>, k: int)
    requires
        0 <= k < pairs.len(),
        pairs[k].0 == n,
    ensures
        exists|i: int|
            0 <= i < pairs.len() && #[trigger] pairs[i].0 == n && forall|j: int| 0 <= j < i ==> pairs[j].0 != n,
    decreases k,
{
    if exists|j: int| 0 <= j < k && pairs[j].0 == n {
        let j = choose|j: int| 0 <= j < k && pairs[j].0 == n;
        lemma_position_minimal(pairs, n, j);
    } else {
        assert(forall|j: int| 0 <= j < k ==> pairs[j].0 != n);
    }
}

proof fn lemma_position_of_bounds(pairs: Seq<(Seq<char>, ValueModel)>, n: Seq<char>)
    ensures
        position_of(pairs, n) matches Some(i) ==> 0 <= i < pairs.len() && pairs[i].0 == n,
{
    if exists|i: int| 0 <= i < pairs.len() && #[trigger] pairs[i].0 == n {
        let k = choose|i: int| 0 <= i < pairs.len() && #[trigger] pairs[i].0 == n;
        lemma_position_minimal(pairs, n, k);
    }
}

/// The position of the declared variable named `name`.
fn position_in(declared: &Vec<(String, Value)>, name: &[char]) -> (r: Option<usize>)
    ensures
        match r {
            Some(i) => position_of(pairs_model(declared@), name@) == Some(i as int),
            None => position_of(pairs_model(declared@), name@) is None,
        },
{
    let ghost pairs = pairs_model(declared@);
    let mut i: usize = 0;
    while i < declared.len()
        invariant
            0 <= i <= declared@.len(),
            pairs == pairs_model(declared@),
            forall|j: int| 0 <= j < i ==> pairs[j].0 != name@,
        decreases declared.len() - i,
    {
        let entry = chars_of(declared[i].0.as_str());
        if chars_eq(entry.as_slice(), name) {
            proof {
                lemma_position_of(pairs, name@, i as int);
            }
            return Some(i);
        }
        i = i + 1;
    }
    proof {
        assert(!exists|i: int| 0 <= i < pairs.len() && #[trigger] pairs[i].0 == name@);
    }
    None
}

/// The names in `names`, as a set.
pub open spec fn names_set(names: Seq<String>) -> Set<Seq<char>> {
    Set::new(|n: Seq<char>| exists|i: int| 0 <= i < names.len() && #[trigger] names[i]@ == n)
}

/// Whether `name` is among `names`.
fn contains_name(names: &Vec<String>, name: &[char]) -> (b: bool)
    ensures
        b == names_set(names@).contains(name@),
{
    let mut i: usize = 0;
    while i < names.len()
        invariant
            0 <= i <= names@.len(),
            forall|j: int| 0 <= j < i ==> names@[j]@ != name@,
        decreases names.len() - i,
    {
        let entry = chars_of(names[i].as_str());
        if chars_eq(entry.as_slice(), name) {
            assert(names@[i as int]@ == name@);
            return true;
        }
        i = i + 1;
    }
    false
}

/// An optional file name, by its text.
pub open spec fn file_view(f: Option<String>) -> Option<Seq<char>> {
    match f {
        Some(s) => Some(s@),
        None => None,
    }
}

fn copy_file(f: &Option<String>) -> (r: Option<String>)
    ensures
        file_view(r) == file_view(*f),
{
    match f {
        Some(s) => Some(s.clone()),
        None => None,
    }
}

/// What went wrong in a variables block, as a mathematical value (the file
/// and line are kept beside it).
pub enum DeclFault {
    UnterminatedVariablesBlock,
    IndentedVariableDeclaration { content: Seq<char> },
    MissingVariableName,
    MalformedVariableDeclaration { content: Seq<char> },
    InvalidVariableName { name: Seq<char> },
    ReservedKeyword { name: Seq<char> },
    DuplicateVariable { name: Seq<char>, previous_line: int },
    EnumMissingEquals { name: Seq<char> },
    EnumEmptyValueList { name: Seq<char> },
    EnumEmptyValue { name: Seq<char> },
    EnumInvalidValue { value: Seq<char> },
    EnumReservedKeywordValue { keyword: Seq<char> },
    EnumDuplicateValue { value: Seq<char>, enum_name: Seq<char> },
    MalformedDefaultExpression { expr: Seq<char> },
    DefaultTypeMismatch { variable: Seq<char>, expected: ValueKind, found_token: Seq<char>, found: ValueKind },
    SelfReferenceInDefault { name: Seq<char> },
    ForwardVariableReference { name: Seq<char> },
    UndefinedVariableReference { name: Seq<char> },
    DefaultLiteralOverflow { variable: Seq<char>, literal: Seq<char> },
    DivisionByZero { variable: Seq<char> },
    IntegerOverflow { variable: Seq<char> },
    LogicalOperatorInDefault,
    UnterminatedStringLiteral,
    InvalidEscapeSequence { sequence: Seq<char> },
}

/// An error in a `--- variables` block, with the file and the 1-based line
/// it was found on.
#[derive(Debug, Clone, PartialEq, Eq)]
pub enum DeclarationError {
    /// The block has no closing `---`; `line` is that of the opening line.
    UnterminatedVariablesBlock { file: Option<String>, line: usize },
    IndentedVariableDeclaration { content: String, file: Option<String>, line: usize },
    MissingVariableName { file: Option<String>, line: usize },
    MalformedVariableDeclaration { content: String, file: Option<String>, line: usize },
    InvalidVariableName { name: String, file: Option<String>, line: usize },
    ReservedKeyword { name: String, file: Option<String>, line: usize },
    DuplicateVariable { name: String, previous_line: usize, file: Option<String>, line: usize },
    EnumMissingEquals { name: String, file: Option<String>, line: usize },
    EnumEmptyValueList { name: String, file: Option<String>, line: usize },
    EnumEmptyValue { name: String, file: Option<String>, line: usize },
    EnumInvalidValue { value: String, file: Option<String>, line: usize },
    EnumReservedKeywordValue { keyword: String, file: Option<String>, line: usize },
    EnumDuplicateValue { value: String, enum_name: String, file: Option<String>, line: usize },
    MalformedDefaultExpression { expr: String, file: Option<String>, line: usize },
    DefaultTypeMismatch {
        variable: String,
        expected: ValueKind,
        found_token: String,
        found: ValueKind,
        file: Option<String>,
        line: usize,
    },
    SelfReferenceInDefault { name: String, file: Option<String>, line: usize },
    ForwardVariableReference { name: String, file: Option<String>, line: usize },
    UndefinedVariableReference { name: String, file: Option<String>, line: usize },
    DefaultLiteralOverflow { variable: String, literal: String, file: Option<String>, line: usize },
    DivisionByZero { variable: String, file: Option<String>, line: usize },
    IntegerOverflow { variable: String, file: Option<String>, line: usize },
    LogicalOperatorInDefault { file: Option<String>, line: usize },
    UnterminatedStringLiteral { file: Option<String>, line: usize },
    InvalidEscapeSequence { sequence: String, file: Option<String>, line: usize },
}

impl View for DeclarationError {
    type V = (DeclFault, Option<Seq<char>>, int);

    open spec fn view(&self) -> (DeclFault, Option<Seq<char>>, int) {
        match self {
            DeclarationError::UnterminatedVariablesBlock { file, line } => (
                DeclFault::UnterminatedVariablesBlock,
                file_view(*file),
                *line as int,
            ),
            DeclarationError::IndentedVariableDeclaration { content, file, line } => (
                DeclFault::IndentedVariableDeclaration { content: content@ },
                file_view(*file),
                *line as int,
            ),
            DeclarationError::MissingVariableName { file, line } => (
                DeclFault::MissingVariableName,
                file_view(*file),
                *line as int,
            ),
            DeclarationError::MalformedVariableDeclaration { content, file, line } => (
                DeclFault::MalformedVariableDeclaration { content: content@ },
                file_view(*file),
                *line as int,
            ),
            DeclarationError::InvalidVariableName { name, file, line } => (
                DeclFault::InvalidVariableName { name: name@ },
                file_view(*file),
                *line as int,
            ),
            DeclarationError::ReservedKeyword { name, file, line } => (
                DeclFault::ReservedKeyword { name: name@ },
                file_view(*file),
                *line as int,
            ),
            DeclarationError::DuplicateVariable { name, previous_line, file, line } => (
                DeclFault::DuplicateVariable { name: name@, previous_line: *previous_line as int },
                file_view(*file),
                *line as int,
            ),
            DeclarationError::EnumMissingEquals { name, file, line } => (
                DeclFault::EnumMissingEquals { name: name@ },
                file_view(*file),
                *line as int,
            ),
            DeclarationError::EnumEmptyValueList { name, file, line } => (
                DeclFault::EnumEmptyValueList { name: name@ },
                file_view(*file),
                *line as int,
            ),
            DeclarationError::EnumEmptyValue { name, file, line } => (
                DeclFault::EnumEmptyValue { name: name@ },
                file_view(*file),
                *line as int,
            ),
            DeclarationError::EnumInvalidValue { value, file, line } => (
                DeclFault::EnumInvalidValue { value: value@ },
                file_view(*file),
                *line as int,
            ),
            DeclarationError::EnumReservedKeywordValue { keyword, file, line } => (
                DeclFault::EnumReservedKeywordValue { keyword: keyword@ },
                file_view(*file),
                *line as int,
            ),
            DeclarationError::EnumDuplicateValue { value, enum_name, file, line } => (
                DeclFault::EnumDuplicateValue { value: value@, enum_name: enum_name@ },
                file_view(*file),
                *line as int,
            ),
            DeclarationError::MalformedDefaultExpression { expr, file, line } => (
                DeclFault::MalformedDefaultExpression { expr: expr@ },
                file_view(*file),
                *line as int,
            ),
            DeclarationError::DefaultTypeMismatch { variable, expected, found_token, found, file, line } => (
                DeclFault::DefaultTypeMismatch {
                    variable: variable@,
                    expected: *expected,
                    found_token: found_token@,
                    found: *found,
                },
                file_view(*file),
                *line as int,
            ),
            DeclarationError::SelfReferenceInDefault { name, file, line } => (
                DeclFault::SelfReferenceInDefault { name: name@ },
                file_view(*file),
                *line as int,
            ),
            DeclarationError::ForwardVariableReference { name, file, line } => (
                DeclFault::ForwardVariableReference { name: name@ },
                file_view(*file),
                *line as int,
            ),
            DeclarationError::UndefinedVariableReference { name, file, line } => (
                DeclFault::UndefinedVariableReference { name: name@ },
                file_view(*file),
                *line as int,
            ),
            DeclarationError::DefaultLiteralOverflow { variable, literal, file, line } => (
                DeclFault::DefaultLiteralOverflow { variable: variable@, literal: literal@ },
                file_view(*file),
                *line as int,
            ),
            DeclarationError::DivisionByZero { variable, file, line } => (
                DeclFault::DivisionByZero { variable: variable@ },
                file_view(*file),
                *line as int,
            ),
            DeclarationError::IntegerOverflow { variable, file, line } => (
                DeclFault::IntegerOverflow { variable: variable@ },
                file_view(*file),
                *line as int,
            ),
            DeclarationError::LogicalOperatorInDefault { file, line } => (
                DeclFault::LogicalOperatorInDefault,
                file_view(*file),
                *line as int,
            ),
            DeclarationError::UnterminatedStringLiteral { file, line } => (
                DeclFault::UnterminatedStringLiteral,
                file_view(*file),
                *line as int,
            ),
            DeclarationError::InvalidEscapeSequence { sequence, file, line } => (
                DeclFault::InvalidEscapeSequence { sequence: sequence@ },
                file_view(*file),
                *line as int,
            ),
        }
    }
}

/// What one declaration line amounts to.
pub enum Step {
    /// A variable with this name and default value.
    Declared(Seq<char>, ValueModel),
    Fault(DeclFault),
    /// A declaration this library does not handle: a `float` variable
    /// (floating point is out of its reach), or an `int` default that folds
    /// to a non-integer, which has no meaning as an integer default.
    Unsupported,
}

/// The type keyword a declaration starts with.
#[derive(Debug, Clone, Copy, PartialEq, Eq, Structural)]
pub enum DeclKind {
    Int,
    Bool,
    Float,
    Str,
    Enum,
}

/// The declared kind of a trimmed line and the rest after `<keyword> `
/// (leading whitespace removed).
pub open spec fn decl_kind(t: Seq<char>) -> Option<(DeclKind, Seq<char>)> {
    if has_prefix(t, "int "@) {
        Some((DeclKind::Int, trim_start(t.skip(4))))
    } else if has_prefix(t, "bool "@) {
        Some((DeclKind::Bool, trim_start(t.skip(5))))
    } else if has_prefix(t, "float "@) {
        Some((DeclKind::Float, trim_start(t.skip(6))))
    } else if has_prefix(t, "string "@) {
        Some((DeclKind::Str, trim_start(t.skip(7))))
    } else if has_prefix(t, "enum "@) {
        Some((DeclKind::Enum, trim_start(t.skip(5))))
    } else {
        None
    }
}

/// A type keyword standing alone.
pub open spec fn bare_keyword(t: Seq<char>) -> bool {
    t == "int"@ || t == "bool"@ || t == "float"@ || t == "string"@ || t == "enum"@
}

fn rest_after(t: &[char], n: usize) -> (out: Vec<char>)
    requires
        n <= t@.len(),
    ensures
        out@ == trim_start(t@.skip(n as int)),
{
    let tail = slice_chars(t, n, t.len());
    assert(tail@ =~= t@.skip(n as int));
    trim_start_chars(tail.as_slice())
}

/// Recognizes the type keyword of a trimmed declaration line.
fn declaration_kind(t: &[char]) -> (r: Option<(DeclKind, Vec<char>)>)
    ensures
        match decl_kind(t@) {
            Some((k, rest)) => r matches Some((k2, v)) && k2 == k && v@ == rest,
            None => r is None,
        },
{
    proof {
        reveal_strlit("int ");
        reveal_strlit("bool ");
        reveal_strlit("float ");
        reveal_strlit("string ");
        reveal_strlit("enum ");
    }
    let int_kw = chars_of("int ");
    let bool_kw = chars_of("bool ");
    let float_kw = chars_of("float ");
    let string_kw = chars_of("string ");
    let enum_kw = chars_of("enum ");
    if starts_with(t, int_kw.as_slice()) {
        Some((DeclKind::Int, rest_after(t, 4)))
    } else if starts_with(t, bool_kw.as_slice()) {
        Some((DeclKind::Bool, rest_after(t, 5)))
    } else if starts_with(t, float_kw.as_slice()) {
        Some((DeclKind::Float, rest_after(t, 6)))
    } else if starts_with(t, string_kw.as_slice()) {
        Some((DeclKind::Str, rest_after(t, 7)))
    } else if starts_with(t, enum_kw.as_slice()) {
        Some((DeclKind::Enum, rest_after(t, 5)))
    } else {
        None
    }
}

fn is_bare_keyword(t: &[char]) -> (b: bool)
    ensures
        b == bare_keyword(t@),
{
    let a = chars_of("int");
    let b = chars_of("bool");
    let c = chars_of("float");
    let d = chars_of("string");
    let e = chars_of("enum");
    chars_eq(t, a.as_slice()) || chars_eq(t, b.as_slice()) || chars_eq(t, c.as_slice())
        || chars_eq(t, d.as_slice()) || chars_eq(t, e.as_slice())
}


// ---------------------------------------------------------------------------
// Integer defaults
// ---------------------------------------------------------------------------

/// The integer variables among `pairs`, in order, with their values.
pub open spec fn int_entries(pairs: Seq<(Seq<char>, ValueModel)>) -> Seq<(Seq<char>, i64)>
    decreases pairs.len(),
{
    if pairs.len() == 0 {
        seq![]
    } else {
        let rest = int_entries(pairs.drop_last());
        match pairs.last().1 {
            ValueModel::Int(v) => rest.push((pairs.last().0, v)),
            _ => rest,
        }
    }
}

/// Whether the entries of `v` have the names and values of `e`.
pub open spec fn entries_match(v: Seq<(String, i64)>, e: Seq<(Seq<char>, i64)>) -> bool {
    &&& v.len() == e.len()
    &&& forall|i: int| 0 <= i < v.len() ==> (#[trigger] v[i]).0@ == e[i].0 && v[i].1 == e[i].1
}

/// A list of integer variables with the names and values of `e`.
pub open spec fn int_scope(e: Seq<(Seq<char>, i64)>) -> Vec<(String, i64)> {
    choose|v: Vec<(String, i64)>| entries_match(v@, e)
}

proof fn lemma_first_named_congruent(a: Seq<(String, i64)>, b: Seq<(String, i64)>, n: Seq<char>)
    requires
        a.len() == b.len(),
        forall|i: int| 0 <= i < a.len() ==> (#[trigger] a[i]).0@ == b[i].0@,
    ensures
        first_named(a, n) == first_named(b, n),
{
    if exists|i: int| 0 <= i < a.len() && #[trigger] a[i].0@ == n {
        let k = choose|i: int| 0 <= i < a.len() && #[trigger] a[i].0@ == n;
        lemma_first_exists(a, n, k);
        let m = choose|i: int|
            0 <= i < a.len() && #[trigger] a[i].0@ == n && forall|j: int| 0 <= j < i ==> a[j].0@ != n;
        lemma_first_named(a, n, m);
        assert(b[m].0@ == n);
        assert forall|j: int| 0 <= j < m implies b[j].0@ != n by {
            assert(a[j].0@ == b[j].0@);
        }
        lemma_first_named(b, n, m);
    } else {
        assert forall|i: int| 0 <= i < b.len() implies b[i].0@ != n by {
            assert(a[i].0@ == b[i].0@);
        }
    }
}

/// Folding against any list with the same names and values gives the same
/// outcome.
proof fn lemma_fold_congruent(s: Seq<char>, v: Vec<(String, i64)>, e: Seq<(Seq<char>, i64)>)
    requires
        entries_match(v@, e),
    ensures
        fold_outcome(s, v) == fold_outcome(s, int_scope(e)),
{
    let w = int_scope(e);
    assert(entries_match(w@, e));
    assert forall|n: Seq<char>| #[trigger] v.resolves(n) == w.resolves(n) by {
        assert forall|i: int| 0 <= i < v@.len() implies (#[trigger] v@[i]).0@ == w@[i].0@ by {
            assert(v@[i].0@ == e[i].0);
            assert(w@[i].0@ == e[i].0);
        }
        lemma_first_named_congruent(v@, w@, n);
    }
    assert(same_resolution(v, w));
    lemma_outcome_congruent(s, v, w);
    assert(known_values(v@) =~= known_values(w@)) by {
        assert forall|i: int| 0 <= i < v@.len() implies v@[i].1 == w@[i].1 by {
            assert(v@[i].1 == e[i].1);
            assert(w@[i].1 == e[i].1);
        }
    }
}

/// The integer variables among `declared`.
fn integer_view(declared: &Vec<(String, Value)>) -> (iv: Vec<(String, i64)>)
    ensures
        entries_match(iv@, int_entries(pairs_model(declared@))),
{
    let ghost pairs = pairs_model(declared@);
    let mut iv: Vec<(String, i64)> = Vec::new();
    let mut i: usize = 0;
    while i < declared.len()
        invariant
            0 <= i <= declared@.len(),
            pairs == pairs_model(declared@),
            entries_match(iv@, int_entries(pairs.take(i as int))),
        decreases declared.len() - i,
    {
        proof {
            assert(pairs.take(i + 1).drop_last() =~= pairs.take(i as int));
            assert(pairs.take(i + 1).last() == pairs[i as int]);
        }
        match &declared[i].1 {
            Value::Integer(n) => {
                iv.push((declared[i].0.clone(), *n));
            },
            _ => {},
        }
        i = i + 1;
    }
    assert(pairs.take(i as int) =~= pairs);
    iv
}

/// What an `int` declaration named `name` with default `default` amounts to.
pub open spec fn int_step(
    name: Seq<char>,
    default: Option<Seq<char>>,
    pairs: Seq<(Seq<char>, ValueModel)>,
    future: Set<Seq<char>>,
) -> Step {
    match default {
        None => Step::Declared(name, ValueModel::Int(0)),
        Some(s) => match fold_outcome(s, int_scope(int_entries(pairs))) {
            FoldOutcome::Value(n) => Step::Declared(name, ValueModel::Int(n)),
            FoldOutcome::Malformed => Step::Fault(DeclFault::MalformedDefaultExpression { expr: s }),
            FoldOutcome::Undefined(r) => match position_of(pairs, r) {
                Some(i) => Step::Fault(
                    DeclFault::DefaultTypeMismatch {
                        variable: name,
                        expected: ValueKind::Integer,
                        found_token: r,
                        found: model_kind(pairs[i].1),
                    },
                ),
                None => if r == name {
                    Step::Fault(DeclFault::SelfReferenceInDefault { name: r })
                } else if future.contains(r) {
                    Step::Fault(DeclFault::ForwardVariableReference { name: r })
                } else {
                    Step::Fault(DeclFault::UndefinedVariableReference { name: r })
                },
            },
            FoldOutcome::LiteralOverflow(l) => Step::Fault(
                DeclFault::DefaultLiteralOverflow { variable: name, literal: l },
            ),
            FoldOutcome::DivisionByZero => Step::Fault(DeclFault::DivisionByZero { variable: name }),
            FoldOutcome::Overflow => Step::Fault(DeclFault::IntegerOverflow { variable: name }),
            FoldOutcome::NonInteger => Step::Unsupported,
        },
    }
}

/// Whether `r`, a default value or an error at `line` of `file`, is what the
/// step `st` says.
pub open spec fn value_agrees(
    r: Result<Value, DeclarationError>,
    st: Step,
    file: Option<Seq<char>>,
    line: int,
) -> bool {
    match st {
        Step::Declared(_, m) => r matches Ok(v) && model_of(v) == m,
        Step::Fault(f) => r matches Err(e) && e@ == (f, file, line),
        Step::Unsupported => false,
    }
}

/// Folds an `int` variable's default (`0` when it has none).
#[verifier::rlimit(40)]
#[verifier::spinoff_prover]
fn integer_default_value(
    name: &[char],
    default_expr: &Option<Vec<char>>,
    declared: &Vec<(String, Value)>,
    future_names: &Vec<String>,
    file_path: &Option<String>,
    line_number: usize,
) -> (r: Result<Value, DeclarationError>)
    requires
        !(int_step(name@, opt_chars(*default_expr), pairs_model(declared@), names_set(future_names@)) is Unsupported),
    ensures
        value_agrees(
            r,
            int_step(name@, opt_chars(*default_expr), pairs_model(declared@), names_set(future_names@)),
            file_view(*file_path),
            line_number as int,
        ),
{
    let expr = match default_expr {
        Some(e) => e,
        None => return Ok(Value::Integer(0)),
    };
    let ghost pairs = pairs_model(declared@);
    let iv = integer_view(declared);
    proof {
        lemma_fold_congruent(expr@, iv, int_entries(pairs));
    }
    match fold_chars(expr.as_slice(), &iv) {
        Ok(v) => Ok(Value::Integer(v)),
        Err(EvalError::Malformed) => Err(DeclarationError::MalformedDefaultExpression {
            expr: string_from_chars(expr.as_slice()),
            file: copy_file(file_path),
            line: line_number,
        }),
        Err(EvalError::UndefinedVariable { name: referenced }) => {
            let rc = chars_of(referenced.as_str());
            proof {
                lemma_position_of_bounds(pairs, rc@);
            }
            match position_in(declared, rc.as_slice()) {
                Some(i) => Err(DeclarationError::DefaultTypeMismatch {
                    variable: string_from_chars(name),
                    expected: ValueKind::Integer,
                    found_token: referenced,
                    found: declared[i].1.kind(),
                    file: copy_file(file_path),
                    line: line_number,
                }),
                None => if chars_eq(rc.as_slice(), name) {
                    Err(DeclarationError::SelfReferenceInDefault {
                        name: referenced,
                        file: copy_file(file_path),
                        line: line_number,
                    })
                } else if contains_name(future_names, rc.as_slice()) {
                    Err(DeclarationError::ForwardVariableReference {
                        name: referenced,
                        file: copy_file(file_path),
                        line: line_number,
                    })
                } else {
                    Err(DeclarationError::UndefinedVariableReference {
                        name: referenced,
                        file: copy_file(file_path),
                        line: line_number,
                    })
                },
            }
        },
        Err(EvalError::LiteralOverflow { literal }) => Err(DeclarationError::DefaultLiteralOverflow {
            variable: string_from_chars(name),
            literal,
            file: copy_file(file_path),
            line: line_number,
        }),
        Err(EvalError::DivisionByZero) => Err(DeclarationError::DivisionByZero {
            variable: string_from_chars(name),
            file: copy_file(file_path),
            line: line_number,
        }),
        Err(EvalError::Overflow) => Err(DeclarationError::IntegerOverflow {
            variable: string_from_chars(name),
            file: copy_file(file_path),
            line: line_number,
        }),
    }
}

/// An optional character vector, by its text.
pub open spec fn opt_chars(o: Option<Vec<char>>) -> Option<Seq<char>> {
    match o {
        Some(v) => Some(v@),
        None => None,
    }
}


// ---------------------------------------------------------------------------
// Boolean defaults
// ---------------------------------------------------------------------------

/// What a boolean default resolves to, as a mathematical value.
pub enum BoolFold {
    Value(bool),
    LogicalOperator,
    TypeMismatch(Seq<char>, ValueKind),
    SelfReference,
    Forward(Seq<char>),
    Undefined(Seq<char>),
}

/// Whether a whitespace-separated word of `s` is `and`, `or` or `not`.
pub open spec fn has_logical_word(s: Seq<char>) -> bool {
    exists|k: int| 0 <= k < words_from(s, 0).len() && reserved_keyword(#[trigger] words_from(s, 0)[k])
}

/// A boolean default: `true`, `false`, or the name of an earlier boolean
/// variable. Logical operators are refused; anything else is an integer
/// where a boolean was needed.
pub open spec fn bool_default(
    s: Seq<char>,
    var: Seq<char>,
    pairs: Seq<(Seq<char>, ValueModel)>,
    future: Set<Seq<char>>,
) -> BoolFold {
    let t = trim(s);
    if has_logical_word(s) {
        BoolFold::LogicalOperator
    } else if t == "true"@ {
        BoolFold::Value(true)
    } else if t == "false"@ {
        BoolFold::Value(false)
    } else if valid_identifier(t) {
        if t == var {
            BoolFold::SelfReference
        } else {
            match position_of(pairs, t) {
                Some(i) => match pairs[i].1 {
                    ValueModel::Bool(b) => BoolFold::Value(b),
                    m => BoolFold::TypeMismatch(t, model_kind(m)),
                },
                None => if future.contains(t) {
                    BoolFold::Forward(t)
                } else {
                    BoolFold::Undefined(t)
                },
            }
        }
    } else {
        BoolFold::TypeMismatch(t, ValueKind::Integer)
    }
}

/// Errors of resolving a boolean default.
#[derive(Debug, Clone, PartialEq, Eq)]
pub enum BoolDefaultError {
    /// A logical operator (`and`/`or`/`not`) appeared in the default.
    LogicalOperator,
    /// The default is a non-boolean value; `token` is its text and `found`
    /// its kind.
    TypeMismatch { token: String, found: ValueKind },
    /// The default names the variable being declared.
    SelfReference,
    /// The default names a variable declared later in the block.
    ForwardReference { name: String },
    /// The default names a variable that is never declared.
    UndefinedReference { name: String },
}

/// Whether `r` is the resolution `f`.
pub open spec fn bool_agrees(r: Result<bool, BoolDefaultError>, f: BoolFold) -> bool {
    match f {
        BoolFold::Value(b) => r == Ok::<bool, BoolDefaultError>(b),
        BoolFold::LogicalOperator => r matches Err(BoolDefaultError::LogicalOperator),
        BoolFold::TypeMismatch(t, k) => r matches Err(BoolDefaultError::TypeMismatch { token, found })
            && token@ == t && found == k,
        BoolFold::SelfReference => r matches Err(BoolDefaultError::SelfReference),
        BoolFold::Forward(n) => r matches Err(BoolDefaultError::ForwardReference { name }) && name@ == n,
        BoolFold::Undefined(n) => r matches Err(BoolDefaultError::UndefinedReference { name }) && name@ == n,
    }
}

/// A boolean default that names an earlier boolean variable (its first
/// declaration `declared[i]`, a variable other than the one declared)
/// resolves to exactly that variable's declared value.
pub proof fn lemma_bool_default_reference(
    s: Seq<char>,
    var: Seq<char>,
    declared: Seq<(String, Value)>,
    future: Set<Seq<char>>,
    i: int,
    v: bool,
)
    requires
        !has_logical_word(s),
        valid_identifier(trim(s)),
        trim(s) != "true"@,
        trim(s) != "false"@,
        trim(s) != var,
        0 <= i < declared.len(),
        declared[i].0@ == trim(s),
        declared[i].1 == Value::Boolean(v),
        forall|j: int| 0 <= j < i ==> declared[j].0@ != trim(s),
    ensures
        bool_default(s, var, pairs_model(declared), future) == BoolFold::Value(v),
{
    let pairs = pairs_model(declared);
    let t = trim(s);
    assert(pairs[i] == (declared[i].0@, model_of(declared[i].1)));
    assert(pairs[i].0 == t);
    let k = choose|k: int| 0 <= k < pairs.len() && #[trigger] pairs[k].0 == t && forall|j: int| 0 <= j < k ==> pairs[j].0 != t;
    if k < i {
        assert(pairs[k] == (declared[k].0@, model_of(declared[k].1)));
    }
    if k > i {
        assert(pairs[i].0 != t);
    }
    assert(k == i);
}

/// The words `true` and `false` are the booleans they name, and a name of
/// an earlier variable that is not a boolean is a type mismatch naming it
/// and its kind.
pub proof fn lemma_bool_default_literals(
    s: Seq<char>,
    var: Seq<char>,
    declared: Seq<(String, Value)>,
    future: Set<Seq<char>>,
)
    requires
        !has_logical_word(s),
    ensures
        trim(s) == "true"@ ==> bool_default(s, var, pairs_model(declared), future) == BoolFold::Value(true),
        trim(s) == "false"@ ==> bool_default(s, var, pairs_model(declared), future) == BoolFold::Value(false),
{
    reveal_strlit("true");
    reveal_strlit("false");
    assert("false"@[0] != "true"@[0]);
    assert("false"@ != "true"@);
}

/// A boolean default that names the variable being declared is a
/// self-reference; one that names an earlier variable which is not a
/// boolean is a type mismatch naming it and that variable's kind.
pub proof fn lemma_bool_default_faults(
    s: Seq<char>,
    var: Seq<char>,
    declared: Seq<(String, Value)>,
    future: Set<Seq<char>>,
    i: int,
)
    requires
        !has_logical_word(s),
        valid_identifier(trim(s)),
        trim(s) != "true"@,
        trim(s) != "false"@,
    ensures
        trim(s) == var ==> bool_default(s, var, pairs_model(declared), future) == BoolFold::SelfReference,
        trim(s) != var && 0 <= i < declared.len() && declared[i].0@ == trim(s) && !(declared[i].1 is Boolean)
            && (forall|j: int| 0 <= j < i ==> declared[j].0@ != trim(s)) ==> bool_default(s, var, pairs_model(declared), future)
            == BoolFold::TypeMismatch(trim(s), model_kind(model_of(declared[i].1))),
{
    let pairs = pairs_model(declared);
    let t = trim(s);
    if t != var && 0 <= i < declared.len() && declared[i].0@ == t && (forall|j: int| 0 <= j < i ==> declared[j].0@ != t) {
        assert(pairs[i] == (declared[i].0@, model_of(declared[i].1)));
        assert(pairs[i].0 == t);
        let k = choose|k: int| 0 <= k < pairs.len() && #[trigger] pairs[k].0 == t && forall|j: int| 0 <= j < k ==> pairs[j].0 != t;
        if k < i {
            assert(pairs[k] == (declared[k].0@, model_of(declared[k].1)));
        }
        if k > i {
            assert(pairs[i].0 != t);
        }
        assert(k == i);
    }
}

/// Resolves a boolean default against the variables `declared` earlier in
/// the block; `future_names` are those declared later.
pub fn evaluate_bool_default(
    expression: &str,
    variable_name: &str,
    declared: &Vec<(String, Value)>,
    future_names: &Vec<String>,
) -> (r: Result<bool, BoolDefaultError>)
    ensures
        bool_agrees(r, bool_default(expression@, variable_name@, pairs_model(declared@), names_set(future_names@))),
        forall|i: int| {
            &&& !has_logical_word(expression@)
            &&& valid_identifier(trim(expression@))
            &&& trim(expression@) != "true"@
            &&& trim(expression@) != "false"@
            &&& trim(expression@) != variable_name@
            &&& 0 <= i < declared@.len()
            &&& declared@[i].0@ == trim(expression@)
            &&& #[trigger] declared@[i].1 is Boolean
            &&& forall|j: int| 0 <= j < i ==> declared@[j].0@ != trim(expression@)
        } ==> r == Ok::<bool, BoolDefaultError>(declared@[i].1->Boolean_0),
{
    let e = chars_of(expression);
    let v = chars_of(variable_name);
    let r = bool_default_chars(e.as_slice(), v.as_slice(), declared, future_names);
    proof {
        assert forall|i: int| {
            &&& !has_logical_word(expression@)
            &&& valid_identifier(trim(expression@))
            &&& trim(expression@) != "true"@
            &&& trim(expression@) != "false"@
            &&& trim(expression@) != variable_name@
            &&& 0 <= i < declared@.len()
            &&& declared@[i].0@ == trim(expression@)
            &&& #[trigger] declared@[i].1 is Boolean
            &&& forall|j: int| 0 <= j < i ==> declared@[j].0@ != trim(expression@)
        } implies r == Ok::<bool, BoolDefaultError>(declared@[i].1->Boolean_0) by {
            lemma_bool_default_reference(expression@, variable_name@, declared@, names_set(future_names@), i,
                declared@[i].1->Boolean_0);
        }
    }
    r
}

fn has_logical_word_chars(s: &[char]) -> (b: bool)
    ensures
        b == has_logical_word(s@),
{
    let words = split_whitespace_chars(s);
    let mut k: usize = 0;
    while k < words.len()
        invariant
            0 <= k <= words@.len(),
            words@.len() == words_from(s@, 0).len(),
            forall|j: int| 0 <= j < words@.len() ==> #[trigger] words@[j]@ == words_from(s@, 0)[j],
            forall|j: int| 0 <= j < k ==> !reserved_keyword(#[trigger] words_from(s@, 0)[j]),
        decreases words.len() - k,
    {
        if reserved_chars(words[k].as_slice()) {
            assert(reserved_keyword(words_from(s@, 0)[k as int]));
            return true;
        }
        k = k + 1;
    }
    false
}

#[verifier::rlimit(40)]
#[verifier::spinoff_prover]
fn bool_default_chars(
    expression: &[char],
    variable_name: &[char],
    declared: &Vec<(String, Value)>,
    future_names: &Vec<String>,
) -> (r: Result<bool, BoolDefaultError>)
    ensures
        bool_agrees(r, bool_default(expression@, variable_name@, pairs_model(declared@), names_set(future_names@))),
{
    if has_logical_word_chars(expression) {
        return Err(BoolDefaultError::LogicalOperator);
    }
    let t = trim_chars(expression);
    let true_word = chars_of("true");
    let false_word = chars_of("false");
    if chars_eq(t.as_slice(), true_word.as_slice()) {
        return Ok(true);
    }
    if chars_eq(t.as_slice(), false_word.as_slice()) {
        return Ok(false);
    }
    if valid_identifier_chars(t.as_slice()) {
        if chars_eq(t.as_slice(), variable_name) {
            return Err(BoolDefaultError::SelfReference);
        }
        proof {
            lemma_position_of_bounds(pairs_model(declared@), t@);
        }
        match position_in(declared, t.as_slice()) {
            Some(i) => match &declared[i].1 {
                Value::Boolean(b) => Ok(*b),
                other => Err(BoolDefaultError::TypeMismatch {
                    token: string_from_chars(t.as_slice()),
                    found: other.kind(),
                }),
            },
            None => if contains_name(future_names, t.as_slice()) {
                Err(BoolDefaultError::ForwardReference { name: string_from_chars(t.as_slice()) })
            } else {
                Err(BoolDefaultError::UndefinedReference { name: string_from_chars(t.as_slice()) })
            },
        }
    } else {
        Err(BoolDefaultError::TypeMismatch { token: string_from_chars(t.as_slice()), found: ValueKind::Integer })
    }
}

/// What a `bool` declaration named `name` with default `default` amounts to.
pub open spec fn bool_step(
    name: Seq<char>,
    default: Option<Seq<char>>,
    pairs: Seq<(Seq<char>, ValueModel)>,
    future: Set<Seq<char>>,
) -> Step {
    match default {
        None => Step::Declared(name, ValueModel::Bool(false)),
        Some(s) => match bool_default(s, name, pairs, future) {
            BoolFold::Value(b) => Step::Declared(name, ValueModel::Bool(b)),
            BoolFold::LogicalOperator => Step::Fault(DeclFault::LogicalOperatorInDefault),
            BoolFold::TypeMismatch(t, k) => Step::Fault(
                DeclFault::DefaultTypeMismatch {
                    variable: name,
                    expected: ValueKind::Boolean,
                    found_token: t,
                    found: k,
                },
            ),
            BoolFold::SelfReference => Step::Fault(DeclFault::SelfReferenceInDefault { name: name }),
            BoolFold::Forward(n) => Step::Fault(DeclFault::ForwardVariableReference { name: n }),
            BoolFold::Undefined(n) => Step::Fault(DeclFault::UndefinedVariableReference { name: n }),
        },
    }
}

/// Resolves a `bool` variable's default (`false` when it has none).
#[verifier::rlimit(40)]
#[verifier::spinoff_prover]
fn boolean_default_value(
    name: &[char],
    default_expr: &Option<Vec<char>>,
    declared: &Vec<(String, Value)>,
    future_names: &Vec<String>,
    file_path: &Option<String>,
    line_number: usize,
) -> (r: Result<Value, DeclarationError>)
    ensures
        value_agrees(
            r,
            bool_step(name@, opt_chars(*default_expr), pairs_model(declared@), names_set(future_names@)),
            file_view(*file_path),
            line_number as int,
        ),
{
    let expr = match default_expr {
        Some(e) => e,
        None => return Ok(Value::Boolean(false)),
    };
    match bool_default_chars(expr.as_slice(), name, declared, future_names) {
        Ok(b) => Ok(Value::Boolean(b)),
        Err(BoolDefaultError::LogicalOperator) => Err(DeclarationError::LogicalOperatorInDefault {
            file: copy_file(file_path),
            line: line_number,
        }),
        Err(BoolDefaultError::TypeMismatch { token, found }) => Err(DeclarationError::DefaultTypeMismatch {
            variable: string_from_chars(name),
            expected: ValueKind::Boolean,
            found_token: token,
            found,
            file: copy_file(file_path),
            line: line_number,
        }),
        Err(BoolDefaultError::SelfReference) => Err(DeclarationError::SelfReferenceInDefault {
            name: string_from_chars(name),
            file: copy_file(file_path),
            line: line_number,
        }),
        Err(BoolDefaultError::ForwardReference { name: referenced }) => Err(
            DeclarationError::ForwardVariableReference {
                name: referenced,
                file: copy_file(file_path),
                line: line_number,
            },
        ),
        Err(BoolDefaultError::UndefinedReference { name: referenced }) => Err(
            DeclarationError::UndefinedVariableReference {
                name: referenced,
                file: copy_file(file_path),
                line: line_number,
            },
        ),
    }
}

// ---------------------------------------------------------------------------
// String defaults
// ---------------------------------------------------------------------------

/// What a string default resolves to, as a mathematical value.
pub enum StrFold {
    Value(Seq<char>),
    Unterminated,
    InvalidEscape(Seq<char>),
    Malformed,
    TypeMismatch(Seq<char>, ValueKind),
    Forward(Seq<char>),
    Undefined(Seq<char>),
}

/// A string default: one double-quoted literal, or the name of an earlier
/// string variable. A name not yet declared (the variable's own among them)
/// is a forward reference when it is declared in the block.
pub open spec fn string_default(
    s: Seq<char>,
    var: Seq<char>,
    pairs: Seq<(Seq<char>, ValueModel)>,
    future: Set<Seq<char>>,
) -> StrFold {
    let t = trim(s);
    if t.len() > 0 && t[0] == '"' {
        literal_fold(t)
    } else if valid_identifier(t) {
        reference_fold(t, var, pairs, future)
    } else {
        StrFold::Malformed
    }
}

/// A quoted literal occupying all of `t`.
pub open spec fn literal_fold(t: Seq<char>) -> StrFold {
    match scan_body(t.drop_first(), seq![]) {
        LiteralScan::Closed(v, rest) => if trim(rest).len() == 0 {
            StrFold::Value(v)
        } else {
            StrFold::Malformed
        },
        LiteralScan::Unterminated => StrFold::Unterminated,
        LiteralScan::InvalidEscape(q) => StrFold::InvalidEscape(q),
    }
}

/// The name `t` used as a string default.
pub open spec fn reference_fold(
    t: Seq<char>,
    var: Seq<char>,
    pairs: Seq<(Seq<char>, ValueModel)>,
    future: Set<Seq<char>>,
) -> StrFold {
    match position_of(pairs, t) {
        Some(i) => match pairs[i].1 {
            ValueModel::Str(v) => StrFold::Value(v),
            m => StrFold::TypeMismatch(t, model_kind(m)),
        },
        None => if t == var || future.contains(t) {
            StrFold::Forward(t)
        } else {
            StrFold::Undefined(t)
        },
    }
}

/// Errors of resolving a string default.
#[derive(Debug, Clone, PartialEq, Eq)]
pub enum StringDefaultError {
    /// A double-quoted literal opened but never closed.
    UnterminatedLiteral,
    /// A backslash escape other than `\"`, `\n` or `\\`; carries the two
    /// characters (e.g. `\q`).
    InvalidEscape { sequence: String },
    /// Neither one literal nor a bare name (e.g. a concatenation).
    Malformed,
    /// The default names a non-string value; `token` is the name and
    /// `found` its kind.
    TypeMismatch { token: String, found: ValueKind },
    /// The default names a variable declared later in the block (or the
    /// variable itself).
    ForwardReference { name: String },
    /// The default names a variable that is never declared.
    UndefinedReference { name: String },
}

/// Whether `r` is the resolution `f`.
pub open spec fn string_agrees(r: Result<String, StringDefaultError>, f: StrFold) -> bool {
    match f {
        StrFold::Value(v) => r matches Ok(s) && s@ == v,
        StrFold::Unterminated => r matches Err(StringDefaultError::UnterminatedLiteral),
        StrFold::InvalidEscape(q) => r matches Err(StringDefaultError::InvalidEscape { sequence })
            && sequence@ == q,
        StrFold::Malformed => r matches Err(StringDefaultError::Malformed),
        StrFold::TypeMismatch(t, k) => r matches Err(StringDefaultError::TypeMismatch { token, found })
            && token@ == t && found == k,
        StrFold::Forward(n) => r matches Err(StringDefaultError::ForwardReference { name }) && name@ == n,
        StrFold::Undefined(n) => r matches Err(StringDefaultError::UndefinedReference { name }) && name@ == n,
    }
}

/// Resolves a string default against the variables `declared` earlier in
/// the block; `future_names` are those declared later.
pub fn evaluate_string_default(
    expression: &str,
    variable_name: &str,
    declared: &Vec<(String, Value)>,
    future_names: &Vec<String>,
) -> (r: Result<String, StringDefaultError>)
    ensures
        string_agrees(r, string_default(expression@, variable_name@, pairs_model(declared@), names_set(future_names@))),
{
    let e = chars_of(expression);
    let v = chars_of(variable_name);
    string_default_chars(e.as_slice(), v.as_slice(), declared, future_names)
}

fn string_default_chars(
    expression: &[char],
    variable_name: &[char],
    declared: &Vec<(String, Value)>,
    future_names: &Vec<String>,
) -> (r: Result<String, StringDefaultError>)
    ensures
        string_agrees(r, string_default(expression@, variable_name@, pairs_model(declared@), names_set(future_names@))),
{
    let t = trim_chars(expression);
    if t.len() > 0 && t[0] == '"' {
        literal_default(t.as_slice())
    } else if valid_identifier_chars(t.as_slice()) {
        reference_default(t.as_slice(), variable_name, declared, future_names)
    } else {
        Err(StringDefaultError::Malformed)
    }
}

fn literal_default(t: &[char]) -> (r: Result<String, StringDefaultError>)
    requires
        t@.len() > 0,
        t@[0] == '"',
    ensures
        string_agrees(r, literal_fold(t@)),
{
    let (res, _) = scan_literal_chars(t);
    match res {
        Ok(v) => Ok(v),
        Err(StringLiteralError::Unterminated) => Err(StringDefaultError::UnterminatedLiteral),
        Err(StringLiteralError::InvalidEscape { sequence }) => Err(StringDefaultError::InvalidEscape { sequence }),
        Err(StringLiteralError::TrailingCharacters) => Err(StringDefaultError::Malformed),
    }
}

#[verifier::rlimit(40)]
#[verifier::spinoff_prover]
fn reference_default(
    t: &[char],
    variable_name: &[char],
    declared: &Vec<(String, Value)>,
    future_names: &Vec<String>,
) -> (r: Result<String, StringDefaultError>)
    ensures
        string_agrees(r, reference_fold(t@, variable_name@, pairs_model(declared@), names_set(future_names@))),
{
    proof {
        lemma_position_of_bounds(pairs_model(declared@), t@);
    }
    match position_in(declared, t) {
        Some(i) => match &declared[i].1 {
            Value::String(v) => Ok(v.clone()),
            other => Err(StringDefaultError::TypeMismatch { token: string_from_chars(t), found: other.kind() }),
        },
        None => if chars_eq(t, variable_name) || contains_name(future_names, t) {
            Err(StringDefaultError::ForwardReference { name: string_from_chars(t) })
        } else {
            Err(StringDefaultError::UndefinedReference { name: string_from_chars(t) })
        },
    }
}

/// What a `string` declaration named `name` with default `default` amounts to.
pub open spec fn string_step(
    name: Seq<char>,
    default: Option<Seq<char>>,
    pairs: Seq<(Seq<char>, ValueModel)>,
    future: Set<Seq<char>>,
) -> Step {
    match default {
        None => Step::Declared(name, ValueModel::Str(seq![])),
        Some(s) => match string_default(s, name, pairs, future) {
            StrFold::Value(v) => Step::Declared(name, ValueModel::Str(v)),
            StrFold::Unterminated => Step::Fault(DeclFault::UnterminatedStringLiteral),
            StrFold::InvalidEscape(q) => Step::Fault(DeclFault::InvalidEscapeSequence { sequence: q }),
            StrFold::Malformed => Step::Fault(DeclFault::MalformedDefaultExpression { expr: s }),
            StrFold::TypeMismatch(t, k) => Step::Fault(
                DeclFault::DefaultTypeMismatch {
                    variable: name,
                    expected: ValueKind::String,
                    found_token: t,
                    found: k,
                },
            ),
            StrFold::Forward(n) => Step::Fault(DeclFault::ForwardVariableReference { name: n }),
            StrFold::Undefined(n) => Step::Fault(DeclFault::UndefinedVariableReference { name: n }),
        },
    }
}

/// Resolves a `string` variable's default (empty when it has none).
#[verifier::rlimit(40)]
#[verifier::spinoff_prover]
fn string_default_value(
    name: &[char],
    default_expr: &Option<Vec<char>>,
    declared: &Vec<(String, Value)>,
    future_names: &Vec<String>,
    file_path: &Option<String>,
    line_number: usize,
) -> (r: Result<Value, DeclarationError>)
    ensures
        value_agrees(
            r,
            string_step(name@, opt_chars(*default_expr), pairs_model(declared@), names_set(future_names@)),
            file_view(*file_path),
            line_number as int,
        ),
{
    let expr = match default_expr {
        Some(e) => e,
        None => {
            let empty: Vec<char> = Vec::new();
            let s = string_from_chars(empty.as_slice());
            assert(s@ =~= Seq::<char>::empty());
            return Ok(Value::String(s));
        },
    };
    match string_default_chars(expr.as_slice(), name, declared, future_names) {
        Ok(v) => Ok(Value::String(v)),
        Err(StringDefaultError::UnterminatedLiteral) => Err(DeclarationError::UnterminatedStringLiteral {
            file: copy_file(file_path),
            line: line_number,
        }),
        Err(StringDefaultError::InvalidEscape { sequence }) => Err(DeclarationError::InvalidEscapeSequence {
            sequence,
            file: copy_file(file_path),
            line: line_number,
        }),
        Err(StringDefaultError::Malformed) => Err(DeclarationError::MalformedDefaultExpression {
            expr: string_from_chars(expr.as_slice()),
            file: copy_file(file_path),
            line: line_number,
        }),
        Err(StringDefaultError::TypeMismatch { token, found }) => Err(DeclarationError::DefaultTypeMismatch {
            variable: string_from_chars(name),
            expected: ValueKind::String,
            found_token: token,
            found,
            file: copy_file(file_path),
            line: line_number,
        }),
        Err(StringDefaultError::ForwardReference { name: referenced }) => Err(
            DeclarationError::ForwardVariableReference {
                name: referenced,
                file: copy_file(file_path),
                line: line_number,
            },
        ),
        Err(StringDefaultError::UndefinedReference { name: referenced }) => Err(
            DeclarationError::UndefinedVariableReference {
                name: referenced,
                file: copy_file(file_path),
                line: line_number,
            },
        ),
    }
}


// ---------------------------------------------------------------------------
// Enumerations
// ---------------------------------------------------------------------------

/// The checked variant names among the first `n` comma-separated `parts`
/// (each trimmed), or the first fault among them.
pub open spec fn enum_variants(parts: Seq<Seq<char>>, n: int, enum_name: Seq<char>) -> Result<Seq<Seq<char>>, DeclFault>
    decreases n,
{
    if n <= 0 {
        Ok(seq![])
    } else {
        match enum_variants(parts, n - 1, enum_name) {
            Err(f) => Err(f),
            Ok(vs) => match variant_fault(trim(parts[n - 1]), vs, enum_name) {
                Some(f) => Err(f),
                None => Ok(vs.push(trim(parts[n - 1]))),
            },
        }
    }
}

/// What is wrong with the variant `v` after the variants `vs`, if anything.
pub open spec fn variant_fault(v: Seq<char>, vs: Seq<Seq<char>>, enum_name: Seq<char>) -> Option<DeclFault> {
    if v.len() == 0 {
        Some(DeclFault::EnumEmptyValue { name: enum_name })
    } else if !valid_identifier(v) {
        Some(DeclFault::EnumInvalidValue { value: v })
    } else if reserved_keyword(v) {
        Some(DeclFault::EnumReservedKeywordValue { keyword: v })
    } else if vs.contains(v) {
        Some(DeclFault::EnumDuplicateValue { value: v, enum_name })
    } else {
        None
    }
}

fn check_variant(
    v: &[char],
    variants: &Vec<Vec<char>>,
    enum_name: &[char],
    file_path: &Option<String>,
    line_number: usize,
) -> (r: Option<DeclarationError>)
    ensures
        match variant_fault(v@, char_views(variants@), enum_name@) {
            Some(f) => r matches Some(e) && e@ == (f, file_view(*file_path), line_number as int),
            None => r is None,
        },
{
    if v.len() == 0 {
        Some(DeclarationError::EnumEmptyValue {
            name: string_from_chars(enum_name),
            file: copy_file(file_path),
            line: line_number,
        })
    } else if !valid_identifier_chars(v) {
        Some(DeclarationError::EnumInvalidValue {
            value: string_from_chars(v),
            file: copy_file(file_path),
            line: line_number,
        })
    } else if reserved_chars(v) {
        Some(DeclarationError::EnumReservedKeywordValue {
            keyword: string_from_chars(v),
            file: copy_file(file_path),
            line: line_number,
        })
    } else if contains_chars(variants, v) {
        Some(DeclarationError::EnumDuplicateValue {
            value: string_from_chars(v),
            enum_name: string_from_chars(enum_name),
            file: copy_file(file_path),
            line: line_number,
        })
    } else {
        None
    }
}

proof fn lemma_enum_fault_persists(parts: Seq<Seq<char>>, k: int, n: int, enum_name: Seq<char>)
    requires
        0 <= k <= n,
        enum_variants(parts, k, enum_name) is Err,
    ensures
        enum_variants(parts, n, enum_name) == enum_variants(parts, k, enum_name),
    decreases n - k,
{
    if k < n {
        lemma_enum_fault_persists(parts, k, n - 1, enum_name);
    }
}

/// The checked variants of a comma-separated list.
pub open spec fn variant_list(list: Seq<char>, enum_name: Seq<char>) -> Result<Seq<Seq<char>>, DeclFault> {
    let parts = split_on(list, seq![',']);
    enum_variants(parts, parts.len() as int, enum_name)
}

/// Names joined with commas.
pub open spec fn joined(vs: Seq<Seq<char>>) -> Seq<char>
    decreases vs.len(),
{
    if vs.len() == 0 {
        seq![]
    } else if vs.len() == 1 {
        vs[0]
    } else {
        joined(vs.drop_last()) + seq![','] + vs.last()
    }
}

/// The first whitespace-delimited word of `s`.
pub open spec fn first_word(s: Seq<char>) -> Seq<char> {
    s.take(word_end(s, 0))
}

/// Declaration lines as integers.
pub open spec fn lines_model(lines: Seq<usize>) -> Seq<int> {
    lines.map_values(|l: usize| l as int)
}

/// What `enum <rest>` amounts to: `<name> = <variant>, <variant>, ...`.
pub open spec fn enum_step(rest: Seq<char>, pairs: Seq<(Seq<char>, ValueModel)>, lines: Seq<int>) -> Step {
    let (name, list) = name_and_default(rest);
    if name.len() == 0 {
        Step::Fault(DeclFault::MissingVariableName)
    } else {
        match list {
            None => Step::Fault(DeclFault::EnumMissingEquals { name: first_word(name) }),
            Some(l) => if !valid_identifier(name) {
                Step::Fault(DeclFault::InvalidVariableName { name })
            } else if reserved_keyword(name) {
                Step::Fault(DeclFault::ReservedKeyword { name })
            } else {
                match position_of(pairs, name) {
                    Some(i) => Step::Fault(DeclFault::DuplicateVariable { name, previous_line: lines[i] }),
                    None => if l.len() == 0 {
                        Step::Fault(DeclFault::EnumEmptyValueList { name })
                    } else {
                        match variant_list(l, name) {
                            Err(f) => Step::Fault(f),
                            Ok(vs) => Step::Declared(name, ValueModel::Variants(joined(vs))),
                        }
                    },
                }
            },
        }
    }
}

/// Whether `r`, a declared name and value or an error at `line` of `file`,
/// is what the step `st` says.
pub open spec fn decl_agrees(
    r: Result<(String, Value), DeclarationError>,
    st: Step,
    file: Option<Seq<char>>,
    line: int,
) -> bool {
    match st {
        Step::Declared(n, m) => r matches Ok((name, v)) && name@ == n && model_of(v) == m,
        Step::Fault(f) => r matches Err(e) && e@ == (f, file, line),
        Step::Unsupported => false,
    }
}

/// The texts of character vectors.
pub open spec fn char_views(vs: Seq<Vec<char>>) -> Seq<Seq<char>> {
    vs.map_values(|v: Vec<char>| v@)
}

fn contains_chars(vs: &Vec<Vec<char>>, v: &[char]) -> (b: bool)
    ensures
        b == char_views(vs@).contains(v@),
{
    let mut i: usize = 0;
    while i < vs.len()
        invariant
            0 <= i <= vs@.len(),
            forall|j: int| 0 <= j < i ==> char_views(vs@)[j] != v@,
        decreases vs.len() - i,
    {
        if chars_eq(vs[i].as_slice(), v) {
            assert(char_views(vs@)[i as int] == v@);
            return true;
        }
        i = i + 1;
    }
    false
}

fn first_word_chars(s: &[char]) -> (out: Vec<char>)
    ensures
        out@ == first_word(s@),
{
    let mut w: usize = 0;
    while w < s.len() && !is_whitespace(s[w])
        invariant
            0 <= w <= s@.len(),
            word_end(s@, 0) == word_end(s@, w as int),
        decreases s.len() - w,
    {
        w = w + 1;
    }
    let out = slice_chars(s, 0, w);
    assert(out@ =~= s@.take(w as int));
    out
}

/// Checks the comma-separated variant list `list` of the enumeration
/// `enum_name`, returning the variants joined with commas.
#[verifier::rlimit(40)]
#[verifier::spinoff_prover]
fn enum_variant_list(
    list: &[char],
    enum_name: &[char],
    file_path: &Option<String>,
    line_number: usize,
) -> (r: Result<Vec<char>, DeclarationError>)
    ensures
        match variant_list(list@, enum_name@) {
            Ok(vs) => r matches Ok(j) && j@ == joined(vs),
            Err(f) => r matches Err(e) && e@ == (f, file_view(*file_path), line_number as int),
        },
{
    let comma = vec![','];
    assert(comma@ =~= seq![',']);
    let parts = split_chars(list, comma.as_slice());
    let ghost sp = split_on(list@, seq![',']);
    let mut variants: Vec<Vec<char>> = Vec::new();
    let mut text: Vec<char> = Vec::new();
    let mut k: usize = 0;
    assert(char_views(variants@) =~= seq![]);
    while k < parts.len()
        invariant
            0 <= k <= parts@.len(),
            sp == split_on(list@, seq![',']),
            parts@.len() == sp.len(),
            forall|i: int| 0 <= i < parts@.len() ==> #[trigger] parts@[i]@ == sp[i],
            enum_variants(sp, k as int, enum_name@) == Ok::<Seq<Seq<char>>, DeclFault>(char_views(variants@)),
            text@ == joined(char_views(variants@)),
            variants@.len() == k,
        decreases parts.len() - k,
    {
        let v = trim_chars(parts[k].as_slice());
        assert(v@ == trim(sp[k as int]));
        match check_variant(v.as_slice(), &variants, enum_name, file_path, line_number) {
            Some(e) => {
                proof {
                    lemma_enum_fault_persists(sp, k + 1, sp.len() as int, enum_name@);
                }
                return Err(e);
            },
            None => {},
        }
        let ghost before = char_views(variants@);
        if k > 0 {
            text.push(',');
        }
        push_all(&mut text, v.as_slice());
        variants.push(v);
        proof {
            assert(char_views(variants@) =~= before.push(v@));
            assert(char_views(variants@).drop_last() =~= before);
        }
        k = k + 1;
    }
    Ok(text)
}

/// Parses `enum <rest>`; returns the variable's name and its unset value.
#[verifier::rlimit(40)]
#[verifier::spinoff_prover]
fn parse_enum_declaration(
    rest: &[char],
    line_number: usize,
    file_path: &Option<String>,
    declared: &Vec<(String, Value)>,
    declared_lines: &Vec<usize>,
) -> (r: Result<(String, Value), DeclarationError>)
    requires
        declared_lines@.len() == declared@.len(),
    ensures
        decl_agrees(
            r,
            enum_step(rest@, pairs_model(declared@), lines_model(declared_lines@)),
            file_view(*file_path),
            line_number as int,
        ),
{
    let (name, list) = split_name_default(rest);
    if name.len() == 0 {
        return Err(DeclarationError::MissingVariableName { file: copy_file(file_path), line: line_number });
    }
    let l = match list {
        None => {
            let w = first_word_chars(name.as_slice());
            return Err(DeclarationError::EnumMissingEquals {
                name: string_from_chars(w.as_slice()),
                file: copy_file(file_path),
                line: line_number,
            });
        },
        Some(l) => l,
    };
    if !valid_identifier_chars(name.as_slice()) {
        return Err(DeclarationError::InvalidVariableName {
            name: string_from_chars(name.as_slice()),
            file: copy_file(file_path),
            line: line_number,
        });
    }
    if reserved_chars(name.as_slice()) {
        return Err(DeclarationError::ReservedKeyword {
            name: string_from_chars(name.as_slice()),
            file: copy_file(file_path),
            line: line_number,
        });
    }
    proof {
        lemma_position_of_bounds(pairs_model(declared@), name@);
    }
    match position_in(declared, name.as_slice()) {
        Some(i) => {
            return Err(DeclarationError::DuplicateVariable {
                name: string_from_chars(name.as_slice()),
                previous_line: declared_lines[i],
                file: copy_file(file_path),
                line: line_number,
            });
        },
        None => {},
    }
    if l.len() == 0 {
        return Err(DeclarationError::EnumEmptyValueList {
            name: string_from_chars(name.as_slice()),
            file: copy_file(file_path),
            line: line_number,
        });
    }
    match enum_variant_list(l.as_slice(), name.as_slice(), file_path, line_number) {
        Ok(text) => Ok((string_from_chars(name.as_slice()), Value::EnumUnset { variants: string_from_chars(text.as_slice()) })),
        Err(e) => Err(e),
    }
}


// ---------------------------------------------------------------------------
// One declaration line
// ---------------------------------------------------------------------------

/// What the non-blank declaration line `raw` amounts to, after the variables
/// `pairs` (declared on `lines`), with `future` the names declared anywhere
/// in the block.
pub open spec fn declaration_step(
    raw: Seq<char>,
    pairs: Seq<(Seq<char>, ValueModel)>,
    lines: Seq<int>,
    future: Set<Seq<char>>,
) -> Step {
    let t = trim(raw);
    if raw.len() > 0 && (raw[0] == ' ' || raw[0] == '\t') {
        Step::Fault(DeclFault::IndentedVariableDeclaration { content: t })
    } else {
        match decl_kind(t) {
            None => if bare_keyword(t) {
                Step::Fault(DeclFault::MissingVariableName)
            } else {
                Step::Fault(DeclFault::MalformedVariableDeclaration { content: t })
            },
            Some((kind, rest)) => if kind == DeclKind::Enum {
                enum_step(rest, pairs, lines)
            } else {
                typed_step(kind, rest, pairs, lines, future)
            },
        }
    }
}

/// `<kind> <name> [= <default>]` for the kinds other than `enum`.
pub open spec fn typed_step(
    kind: DeclKind,
    rest: Seq<char>,
    pairs: Seq<(Seq<char>, ValueModel)>,
    lines: Seq<int>,
    future: Set<Seq<char>>,
) -> Step {
    let (name, default) = name_and_default(rest);
    if name.len() == 0 {
        Step::Fault(DeclFault::MissingVariableName)
    } else if !valid_identifier(name) {
        Step::Fault(DeclFault::InvalidVariableName { name })
    } else if reserved_keyword(name) {
        Step::Fault(DeclFault::ReservedKeyword { name })
    } else {
        match position_of(pairs, name) {
            Some(i) => Step::Fault(DeclFault::DuplicateVariable { name, previous_line: lines[i] }),
            None => match kind {
                DeclKind::Int => int_step(name, default, pairs, future),
                DeclKind::Bool => bool_step(name, default, pairs, future),
                DeclKind::Str => string_step(name, default, pairs, future),
                _ => Step::Unsupported,
            },
        }
    }
}

#[verifier::rlimit(40)]
#[verifier::spinoff_prover]
fn parse_typed_declaration(
    kind: DeclKind,
    rest: &[char],
    line_number: usize,
    file_path: &Option<String>,
    future_names: &Vec<String>,
    declared: &Vec<(String, Value)>,
    declared_lines: &Vec<usize>,
) -> (r: Result<(String, Value), DeclarationError>)
    requires
        declared_lines@.len() == declared@.len(),
        kind != DeclKind::Enum,
        !(typed_step(kind, rest@, pairs_model(declared@), lines_model(declared_lines@), names_set(future_names@)) is Unsupported),
    ensures
        decl_agrees(
            r,
            typed_step(kind, rest@, pairs_model(declared@), lines_model(declared_lines@), names_set(future_names@)),
            file_view(*file_path),
            line_number as int,
        ),
{
    let (name, default_expr) = split_name_default(rest);
    if name.len() == 0 {
        return Err(DeclarationError::MissingVariableName { file: copy_file(file_path), line: line_number });
    }
    if !valid_identifier_chars(name.as_slice()) {
        return Err(DeclarationError::InvalidVariableName {
            name: string_from_chars(name.as_slice()),
            file: copy_file(file_path),
            line: line_number,
        });
    }
    if reserved_chars(name.as_slice()) {
        return Err(DeclarationError::ReservedKeyword {
            name: string_from_chars(name.as_slice()),
            file: copy_file(file_path),
            line: line_number,
        });
    }
    proof {
        lemma_position_of_bounds(pairs_model(declared@), name@);
    }
    match position_in(declared, name.as_slice()) {
        Some(i) => {
            return Err(DeclarationError::DuplicateVariable {
                name: string_from_chars(name.as_slice()),
                previous_line: declared_lines[i],
                file: copy_file(file_path),
                line: line_number,
            });
        },
        None => {},
    }
    assert(opt_chars(default_expr) == name_and_default(rest@).1);
    let value = match kind {
        DeclKind::Int => integer_default_value(
            name.as_slice(),
            &default_expr,
            declared,
            future_names,
            file_path,
            line_number,
        ),
        DeclKind::Bool => boolean_default_value(
            name.as_slice(),
            &default_expr,
            declared,
            future_names,
            file_path,
            line_number,
        ),
        _ => string_default_value(
            name.as_slice(),
            &default_expr,
            declared,
            future_names,
            file_path,
            line_number,
        ),
    };
    match value {
        Ok(v) => Ok((string_from_chars(name.as_slice()), v)),
        Err(e) => Err(e),
    }
}

/// Parses one non-blank line of a variables block.
#[verifier::rlimit(40)]
#[verifier::spinoff_prover]
fn parse_one_declaration(
    raw: &[char],
    line_number: usize,
    file_path: &Option<String>,
    future_names: &Vec<String>,
    declared: &Vec<(String, Value)>,
    declared_lines: &Vec<usize>,
) -> (r: Result<(String, Value), DeclarationError>)
    requires
        declared_lines@.len() == declared@.len(),
        !(declaration_step(raw@, pairs_model(declared@), lines_model(declared_lines@), names_set(future_names@)) is Unsupported),
    ensures
        decl_agrees(
            r,
            declaration_step(raw@, pairs_model(declared@), lines_model(declared_lines@), names_set(future_names@)),
            file_view(*file_path),
            line_number as int,
        ),
{
    let t = trim_chars(raw);
    if raw.len() > 0 && (raw[0] == ' ' || raw[0] == '\t') {
        return Err(DeclarationError::IndentedVariableDeclaration {
            content: string_from_chars(t.as_slice()),
            file: copy_file(file_path),
            line: line_number,
        });
    }
    match declaration_kind(t.as_slice()) {
        None => if is_bare_keyword(t.as_slice()) {
            Err(DeclarationError::MissingVariableName { file: copy_file(file_path), line: line_number })
        } else {
            Err(DeclarationError::MalformedVariableDeclaration {
                content: string_from_chars(t.as_slice()),
                file: copy_file(file_path),
                line: line_number,
            })
        },
        Some((kind, rest)) => if kind == DeclKind::Enum {
            parse_enum_declaration(rest.as_slice(), line_number, file_path, declared, declared_lines)
        } else {
            parse_typed_declaration(
                kind,
                rest.as_slice(),
                line_number,
                file_path,
                future_names,
                declared,
                declared_lines,
            )
        },
    }
}


// ---------------------------------------------------------------------------
// The block
// ---------------------------------------------------------------------------

/// The name a line declares, if it reads as a declaration with a valid name.
pub open spec fn declared_name(line: Seq<char>) -> Option<Seq<char>> {
    match decl_kind(trim(line)) {
        None => None,
        Some((_, rest)) => {
            let n = name_and_default(rest).0;
            if valid_identifier(n) {
                Some(n)
            } else {
                None
            }
        },
    }
}

/// The names declared on lines `lo..hi` (whatever their fate).
pub open spec fn future_names(ls: Seq<Seq<char>>, lo: int, hi: int) -> Set<Seq<char>> {
    Set::new(|n: Seq<char>| exists|k: int| lo <= k < hi && #[trigger] declared_name(ls[k]) == Some(n))
}

/// A line that closes a block.
pub open spec fn closing_line(l: Seq<char>) -> bool {
    trim(l) == "---"@
}

/// The first closing line after `start`.
pub open spec fn closing_index(ls: Seq<Seq<char>>, start: int) -> Option<int> {
    if exists|j: int| start < j < ls.len() && #[trigger] closing_line(ls[j]) {
        Some(
            choose|j: int|
                start < j < ls.len() && #[trigger] closing_line(ls[j]) && forall|m: int|
                    start < m < j ==> !closing_line(ls[m]),
        )
    } else {
        None
    }
}

/// The state after the lines `lo..k` of a block: the variables declared so
/// far with their lines, and the fault (with its line) or unsupported
/// declaration that stopped the block, if any.
pub struct BlockRun {
    pub pairs: Seq<(Seq<char>, ValueModel)>,
    pub lines: Seq<int>,
    pub fault: Option<(DeclFault, int)>,
    pub unsupported: bool,
}

/// Reads the lines `lo..k` in order, skipping blank lines and stopping at
/// the first fault.
pub open spec fn run_block(ls: Seq<Seq<char>>, lo: int, k: int, future: Set<Seq<char>>) -> BlockRun
    decreases k - lo,
{
    if k <= lo {
        BlockRun { pairs: seq![], lines: seq![], fault: None, unsupported: false }
    } else {
        let prev = run_block(ls, lo, k - 1, future);
        if prev.fault is Some || prev.unsupported || trim(ls[k - 1]).len() == 0 {
            prev
        } else {
            match declaration_step(ls[k - 1], prev.pairs, prev.lines, future) {
                Step::Declared(n, m) => BlockRun {
                    pairs: prev.pairs.push((n, m)),
                    lines: prev.lines.push(k),
                    fault: None,
                    unsupported: false,
                },
                Step::Fault(f) => BlockRun {
                    pairs: prev.pairs,
                    lines: prev.lines,
                    fault: Some((f, k)),
                    unsupported: false,
                },
                Step::Unsupported => BlockRun {
                    pairs: prev.pairs,
                    lines: prev.lines,
                    fault: None,
                    unsupported: true,
                },
            }
        }
    }
}

proof fn lemma_run_stops(ls: Seq<Seq<char>>, lo: int, k: int, n: int, future: Set<Seq<char>>)
    requires
        lo <= k <= n,
        run_block(ls, lo, k, future).fault is Some || run_block(ls, lo, k, future).unsupported,
    ensures
        run_block(ls, lo, n, future) == run_block(ls, lo, k, future),
    decreases n - k,
{
    if k < n {
        lemma_run_stops(ls, lo, k, n - 1, future);
    }
}

/// The text of each line.
pub open spec fn line_views(lines: Seq<&str>) -> Seq<Seq<char>> {
    lines.map_values(|l: &str| l@)
}

/// Whether the block starting at `start` holds nothing this library leaves
/// out: no `float` variable and no `int` default that folds to a
/// non-integer is reached.
pub open spec fn block_supported(ls: Seq<Seq<char>>, start: int) -> bool {
    match closing_index(ls, start) {
        None => true,
        Some(c) => !run_block(ls, start + 1, c, future_names(ls, start + 1, c)).unsupported,
    }
}

/// Outcome of parsing a `--- variables` block.
///
/// `consumed_lines` spans the block from its opening line through the
/// closing `---`; when the closing line is missing, the rest of the lines.
/// `errors` holds the error that stopped the block, if any.
#[derive(Debug)]
pub struct VariablesBlockOutcome {
    pub consumed_lines: usize,
    pub errors: Vec<DeclarationError>,
}

fn find_closing(lines: &[&str], start: usize) -> (r: Option<usize>)
    requires
        start <= lines@.len(),
    ensures
        match r {
            Some(c) => closing_index(line_views(lines@), start as int) == Some(c as int) && start < c < lines@.len(),
            None => closing_index(line_views(lines@), start as int) is None,
        },
{
    let ghost ls = line_views(lines@);
    proof {
        reveal_strlit("---");
    }
    let dashes = chars_of("---");
    if start >= lines.len() {
        return None;
    }
    let mut j: usize = start + 1;
    while j < lines.len()
        invariant
            start + 1 <= j <= lines@.len(),
            ls == line_views(lines@),
            dashes@ == "---"@,
            forall|m: int| start < m < j && m < ls.len() ==> !closing_line(ls[m]),
        decreases lines.len() - j,
    {
        let raw = chars_of(lines[j]);
        let t = trim_chars(raw.as_slice());
        assert(raw@ == ls[j as int]);
        if chars_eq(t.as_slice(), dashes.as_slice()) {
            proof {
                assert(closing_line(ls[j as int]));
                let w = choose|w: int|
                    start < w < ls.len() && #[trigger] closing_line(ls[w]) && forall|m: int|
                        start < m < w ==> !closing_line(ls[m]);
                if exists|w: int|
                    start < w < ls.len() && #[trigger] closing_line(ls[w]) && forall|m: int|
                        start < m < w ==> !closing_line(ls[m]) {
                    if w < j {
                        assert(!closing_line(ls[w]));
                    } else if w > j {
                        assert(!closing_line(ls[j as int]));
                    }
                } else {
                    assert(start < j < ls.len() && closing_line(ls[j as int]) && forall|m: int|
                        start < m < j ==> !closing_line(ls[m]));
                }
            }
            return Some(j);
        }
        j = j + 1;
    }
    proof {
        assert forall|m: int| start < m < ls.len() implies !#[trigger] closing_line(ls[m]) by {}
    }
    None
}

/// The names declared on the lines `start..end`.
fn collect_future_names(lines: &[&str], start: usize, end: usize) -> (names: Vec<String>)
    requires
        start <= end <= lines@.len(),
    ensures
        names_set(names@) == future_names(line_views(lines@), start as int, end as int),
{
    let ghost ls = line_views(lines@);
    let mut names: Vec<String> = Vec::new();
    let mut k: usize = start;
    assert(names_set(names@) =~= future_names(ls, start as int, start as int));
    while k < end
        invariant
            start <= k <= end <= lines@.len(),
            ls == line_views(lines@),
            names_set(names@) == future_names(ls, start as int, k as int),
        decreases end - k,
    {
        let raw = chars_of(lines[k]);
        assert(raw@ == ls[k as int]);
        let t = trim_chars(raw.as_slice());
        let ghost before = names@;
        match declaration_kind(t.as_slice()) {
            None => {
                assert(names_set(names@) =~= future_names(ls, start as int, k + 1)) by {
                    assert forall|n: Seq<char>| future_names(ls, start as int, k + 1).contains(n) implies
                        names_set(names@).contains(n) by {
                        let w = choose|w: int| start <= w < k + 1 && #[trigger] declared_name(ls[w]) == Some(n);
                        if w < k {
                            assert(future_names(ls, start as int, k as int).contains(n));
                        }
                    }
                    assert forall|n: Seq<char>| names_set(names@).contains(n) implies
                        future_names(ls, start as int, k + 1).contains(n) by {
                        assert(future_names(ls, start as int, k as int).contains(n));
                        let w = choose|w: int| start <= w < k && #[trigger] declared_name(ls[w]) == Some(n);
                        assert(start <= w < k + 1 && declared_name(ls[w]) == Some(n));
                    }
                }
            },
            Some((_, rest)) => {
                let (name, _) = split_name_default(rest.as_slice());
                if valid_identifier_chars(name.as_slice()) {
                    names.push(string_from_chars(name.as_slice()));
                    assert(declared_name(ls[k as int]) == Some(name@));
                    assert(names_set(names@) =~= future_names(ls, start as int, k + 1)) by {
                        assert forall|n: Seq<char>| future_names(ls, start as int, k + 1).contains(n) implies
                            names_set(names@).contains(n) by {
                            let w = choose|w: int| start <= w < k + 1 && #[trigger] declared_name(ls[w]) == Some(n);
                            if w < k {
                                assert(future_names(ls, start as int, k as int).contains(n));
                                let i = choose|i: int| 0 <= i < before.len() && #[trigger] before[i]@ == n;
                                assert(names@[i]@ == n);
                            } else {
                                assert(names@[before.len() as int]@ == n);
                            }
                        }
                        assert forall|n: Seq<char>| names_set(names@).contains(n) implies
                            future_names(ls, start as int, k + 1).contains(n) by {
                            let i = choose|i: int| 0 <= i < names@.len() && #[trigger] names@[i]@ == n;
                            if i < before.len() {
                                assert(before[i]@ == n);
                                assert(names_set(before).contains(n));
                                let w = choose|w: int| start <= w < k && #[trigger] declared_name(ls[w]) == Some(n);
                                assert(start <= w < k + 1 && declared_name(ls[w]) == Some(n));
                            } else {
                                assert(start <= k < k + 1 && declared_name(ls[k as int]) == Some(n));
                            }
                        }
                    }
                } else {
                    assert(declared_name(ls[k as int]) is None);
                    assert(names_set(names@) =~= future_names(ls, start as int, k + 1)) by {
                        assert forall|n: Seq<char>| future_names(ls, start as int, k + 1).contains(n) implies
                            names_set(names@).contains(n) by {
                            let w = choose|w: int| start <= w < k + 1 && #[trigger] declared_name(ls[w]) == Some(n);
                            if w < k {
                                assert(future_names(ls, start as int, k as int).contains(n));
                            }
                        }
                        assert forall|n: Seq<char>| names_set(names@).contains(n) implies
                            future_names(ls, start as int, k + 1).contains(n) by {
                            assert(future_names(ls, start as int, k as int).contains(n));
                            let w = choose|w: int| start <= w < k && #[trigger] declared_name(ls[w]) == Some(n);
                            assert(start <= w < k + 1 && declared_name(ls[w]) == Some(n));
                        }
                    }
                }
            },
        }
        k = k + 1;
    }
    names
}

/// Whether `after` is `before` followed by the variables `pairs`.
pub open spec fn vars_follow(before: Seq<Variable>, after: Seq<Variable>, pairs: Seq<(Seq<char>, ValueModel)>) -> bool {
    &&& after.len() == before.len() + pairs.len()
    &&& forall|i: int| 0 <= i < before.len() ==> after[i] == before[i]
    &&& forall|j: int|
        0 <= j < pairs.len() ==> (#[trigger] after[before.len() + j]).name@ == pairs[j].0
            && model_of(after[before.len() + j].default) == pairs[j].1
}

proof fn lemma_vars_follow_push(
    before: Seq<Variable>,
    after: Seq<Variable>,
    pairs: Seq<(Seq<char>, ValueModel)>,
    v: Variable,
)
    requires
        vars_follow(before, after, pairs),
    ensures
        vars_follow(before, after.push(v), pairs.push((v.name@, model_of(v.default)))),
{
    let a2 = after.push(v);
    let p2 = pairs.push((v.name@, model_of(v.default)));
    assert forall|j: int| 0 <= j < p2.len() implies (#[trigger] a2[before.len() + j]).name@ == p2[j].0
        && model_of(a2[before.len() + j].default) == p2[j].1 by {
        if j < pairs.len() {
            assert(a2[before.len() + j] == after[before.len() + j]);
        }
    }
}

/// What parsing the block at `start` does to the database's variables and
/// reports, given the lines `ls`.
pub open spec fn block_agrees(
    ls: Seq<Seq<char>>,
    start: int,
    file: Option<Seq<char>>,
    before: Seq<Variable>,
    after: Seq<Variable>,
    outcome: VariablesBlockOutcome,
) -> bool {
    match closing_index(ls, start) {
        None => {
            &&& outcome.consumed_lines == ls.len() - start
            &&& outcome.errors@.len() == 1
            &&& outcome.errors@[0]@ == (DeclFault::UnterminatedVariablesBlock, file, start + 1)
            &&& after == before
        },
        Some(c) => {
            let run = run_block(ls, start + 1, c, future_names(ls, start + 1, c));
            &&& outcome.consumed_lines == c - start + 1
            &&& vars_follow(before, after, run.pairs)
            &&& match run.fault {
                None => outcome.errors@.len() == 0,
                Some((f, line)) => outcome.errors@.len() == 1 && outcome.errors@[0]@ == (f, file, line),
            }
        },
    }
}

/// Parses the `--- variables` block whose opening line is
/// `lines[start_line_index]`.
///
/// Declarations are read in order up to the closing `---`; each declared
/// variable is appended to `database.variables`. The first faulty
/// declaration stops the block and is reported; the outcome still spans the
/// whole block, so that parsing can resume after it.
#[verifier::rlimit(40)]
#[verifier::spinoff_prover]
pub fn parse_variables_block(
    lines: &[&str],
    start_line_index: usize,
    database: &mut Database,
    file_path: &Option<String>,
) -> (outcome: VariablesBlockOutcome)
    requires
        start_line_index <= lines@.len(),
        start_line_index < usize::MAX,
        block_supported(line_views(lines@), start_line_index as int),
    ensures
        block_agrees(
            line_views(lines@),
            start_line_index as int,
            file_view(*file_path),
            old(database).variables@,
            final(database).variables@,
            outcome,
        ),
        final(database).blocks == old(database).blocks,
        final(database).sections == old(database).sections,
        final(database).strings == old(database).strings,
        final(database).section_registry == old(database).section_registry,
{
    let ghost ls = line_views(lines@);
    let closing = match find_closing(lines, start_line_index) {
        Some(c) => c,
        None => {
            let mut errors: Vec<DeclarationError> = Vec::new();
            errors.push(DeclarationError::UnterminatedVariablesBlock {
                file: copy_file(file_path),
                line: start_line_index + 1,
            });
            return VariablesBlockOutcome { consumed_lines: lines.len() - start_line_index, errors };
        },
    };
    let n = lines.len();
    assert(start_line_index < closing < n);
    let span = closing - start_line_index + 1;
    let future = collect_future_names(lines, start_line_index + 1, closing);
    let ghost lo = start_line_index + 1;
    let ghost fut = future_names(ls, lo, closing as int);
    let ghost before = database.variables@;
    let mut declared: Vec<(String, Value)> = Vec::new();
    let mut declared_lines: Vec<usize> = Vec::new();
    let mut k: usize = start_line_index + 1;
    assert(vars_follow(before, database.variables@, seq![]));
    assert(pairs_model(declared@) =~= seq![]);
    assert(lines_model(declared_lines@) =~= seq![]);
    while k < closing
        invariant
            start_line_index < k <= closing < lines@.len(),
            span == closing - start_line_index + 1,
            lo == start_line_index + 1,
            ls == line_views(lines@),
            closing_index(ls, start_line_index as int) == Some(closing as int),
            fut == future_names(ls, lo, closing as int),
            names_set(future@) == fut,
            block_supported(ls, start_line_index as int),
            ({
                let run = run_block(ls, lo, k as int, fut);
                &&& run.fault is None
                &&& !run.unsupported
                &&& pairs_model(declared@) == run.pairs
                &&& lines_model(declared_lines@) == run.lines
                &&& vars_follow(before, database.variables@, run.pairs)
            }),
            declared_lines@.len() == declared@.len(),
            before == old(database).variables@,
            database.blocks == old(database).blocks,
            database.sections == old(database).sections,
            database.strings == old(database).strings,
            database.section_registry == old(database).section_registry,
        decreases closing - k,
    {
        let raw = chars_of(lines[k]);
        assert(raw@ == ls[k as int]);
        let t = trim_chars(raw.as_slice());
        let ghost prev = run_block(ls, lo, k as int, fut);
        if t.len() == 0 {
            assert(run_block(ls, lo, k + 1, fut) == prev);
            k = k + 1;
            continue;
        }
        proof {
            if declaration_step(ls[k as int], prev.pairs, prev.lines, fut) is Unsupported {
                assert(run_block(ls, lo, k + 1, fut).unsupported);
                lemma_run_stops(ls, lo, k + 1, closing as int, fut);
            }
        }
        match parse_one_declaration(raw.as_slice(), k + 1, file_path, &future, &declared, &declared_lines) {
            Ok((name, value)) => {
                let ghost dv = database.variables@;
                declared.push((name.clone(), value.duplicate()));
                declared_lines.push(k + 1);
                database.add_variable(Variable::new(name, value));
                proof {
                    let run = run_block(ls, lo, k + 1, fut);
                    assert(pairs_model(declared@) =~= run.pairs);
                    assert(lines_model(declared_lines@) =~= run.lines);
                    lemma_vars_follow_push(before, dv, prev.pairs, database.variables@.last());
                    assert(database.variables@ =~= dv.push(database.variables@.last()));
                }
                k = k + 1;
            },
            Err(e) => {
                proof {
                    let st = declaration_step(ls[k as int], prev.pairs, prev.lines, fut);
                    assert(st is Fault);
                    assert(run_block(ls, lo, k + 1, fut).fault == Some((st->Fault_0, k + 1)));
                    lemma_run_stops(ls, lo, k + 1, closing as int, fut);
                    assert(e@ == (st->Fault_0, file_view(*file_path), k + 1));
                }
                let mut errors: Vec<DeclarationError> = Vec::new();
                errors.push(e);
                assert(errors@[0]@ == e@);
                return VariablesBlockOutcome { consumed_lines: span, errors };
            },
        }
    }
    VariablesBlockOutcome { consumed_lines: span, errors: Vec::new() }
}


// ---------------------------------------------------------------------------
// What every block keeps
// ---------------------------------------------------------------------------

/// A declaration that goes through names a fresh, valid, unreserved
/// identifier.
proof fn lemma_step_declares_fresh(
    raw: Seq<char>,
    pairs: Seq<(Seq<char>, ValueModel)>,
    lines: Seq<int>,
    future: Set<Seq<char>>,
)
    ensures
        declaration_step(raw, pairs, lines, future) matches Step::Declared(n, _) ==> {
            &&& valid_identifier(n)
            &&& !reserved_keyword(n)
            &&& forall|i: int| 0 <= i < pairs.len() ==> (#[trigger] pairs[i]).0 != n
        },
{
    if let Step::Declared(n, _) = declaration_step(raw, pairs, lines, future) {
        assert(position_of(pairs, n) is None);
        assert forall|i: int| 0 <= i < pairs.len() implies (#[trigger] pairs[i]).0 != n by {
            if pairs[i].0 == n {
                assert(exists|i: int| 0 <= i < pairs.len() && #[trigger] pairs[i].0 == n);
            }
        }
    }
}

/// A variables block never declares a name twice, and every name it
/// declares is a valid identifier other than `and`, `or` and `not`; the
/// declarations come in the order of their lines.
pub proof fn lemma_block_names_distinct(ls: Seq<Seq<char>>, lo: int, k: int, future: Set<Seq<char>>)
    ensures
        ({
            let run = run_block(ls, lo, k, future);
            &&& run.lines.len() == run.pairs.len()
            &&& forall|i: int, j: int| 0 <= i < j < run.pairs.len() ==> run.pairs[i].0 != run.pairs[j].0
            &&& forall|i: int| 0 <= i < run.pairs.len() ==> valid_identifier(#[trigger] run.pairs[i].0)
                && !reserved_keyword(run.pairs[i].0)
            &&& forall|i: int, j: int| 0 <= i < j < run.lines.len() ==> run.lines[i] < run.lines[j]
            &&& forall|i: int| 0 <= i < run.lines.len() ==> lo < #[trigger] run.lines[i] <= k
        }),
    decreases k - lo,
{
    if k > lo {
        lemma_block_names_distinct(ls, lo, k - 1, future);
        let prev = run_block(ls, lo, k - 1, future);
        lemma_step_declares_fresh(ls[k - 1], prev.pairs, prev.lines, future);
    }
}

} // verus!
