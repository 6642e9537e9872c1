//! Diagnostics reported by the script parser, and their messages.
use vstd::prelude::*;

use crate::text::{chars_of, decimal, push_all, push_decimal, string_from_chars};

verus! {

/// A non-fatal diagnostic.
#[derive(Debug, Clone)]
pub struct Warning {
    pub message: String,
    pub file: Option<String>,
    pub line: usize,
}

/// A parse failure, with the file (if any) and line it was found at.
#[derive(Debug)]
pub enum ParseError {
    UnexpectedToken { file: Option<String>, line: usize },
    UnexpectedEndOfFile { file: Option<String>, line: usize },
    InvalidIndentation { message: String, file: Option<String>, line: usize },
    SectionWithoutTitle { file: Option<String>, line: usize },
    InvalidSectionHierarchy { message: String, file: Option<String>, line: usize },
    DuplicateSectionName {
        name: String,
        parent_name: String,
        file: Option<String>,
        line: usize,
        previous_line: usize,
    },
    InvalidGoToSection { message: String, file: Option<String>, line: usize },
    SectionNotFound { path: String, file: Option<String>, line: usize },
    NavigationAboveRoot { file: Option<String>, line: usize },
    InvalidSectionName { message: String, name: String, file: Option<String>, line: usize },
    EmptySection { name: String, file: Option<String>, line: usize },
    OptionsWithoutParent { file: Option<String>, line: usize },
    DuplicateVariableName { name: String, line: usize },
    MissingVariableName { line: usize },
    InvalidIntegerValue { name: String, value: String, line: usize },
    InvalidVariableType { name: String, line: usize },
    UnknownVariableName { name: String, line: usize },
    InvalidSetSyntax { line: usize },
    InvalidRequireSyntax { line: usize },
    InvalidRequireOperator { operator: String, line: usize },
    VariablesBlockNotAtTop { line: usize },
    UnclosedVariablesBlock,
    MultipleErrors { errors: Vec<ParseError> },
}

/// The final component of a path, as `Path::file_name` gives it (`None`
/// for a path that ends in `..` or has no final component).
pub uninterp spec fn path_file_name(path: Seq<char>) -> Option<Seq<char>>;

/// The final component of `path`.
///
/// Calls `std::path::Path::file_name` on `path` and converts the component
/// back to text. The contract only says that the result is the one that
/// `path_file_name` names for the path; what a component is (how `/` and
/// `..` are read) is left to std.
#[verifier::external_body]
fn file_name_of(path: &str) -> (r: Option<String>)
    ensures
        match r {
            Some(name) => path_file_name(path@) == Some(name@),
            None => path_file_name(path@) is None,
        },
{
    match std::path::Path::new(path).file_name() {
        Some(name) => name.to_str().map(|s| s.to_string()),
        None => None,
    }
}

/// The name a diagnostic gives its file: the file's final path component,
/// or `test.cuentitos` when there is none.
pub open spec fn file_label(file: Option<String>) -> Seq<char> {
    match file {
        Some(path) => match path_file_name(path@) {
            Some(name) => name,
            None => "test.cuentitos"@,
        },
        None => "test.cuentitos"@,
    }
}

/// `<file>:<line>: ERROR: <text>`.
pub open spec fn located(file: Option<String>, line: usize, text: Seq<char>) -> Seq<char> {
    file_label(file) + ":"@ + decimal(line as nat) + ": ERROR: "@ + text
}

/// The message of an error: located errors name their file and line, the
/// variable-block errors their line; several errors are separated by a
/// blank line.
pub open spec fn error_message(e: ParseError) -> Seq<char>
    decreases e, 0nat,
{
    match e {
        ParseError::UnexpectedToken { file, line } => located(file, line, "Unexpected token"@),
        ParseError::UnexpectedEndOfFile { file, line } => located(file, line, "Unexpected end of file"@),
        ParseError::InvalidIndentation { message, file, line } => located(file, line, "Invalid indentation: "@ + message@),
        ParseError::SectionWithoutTitle { file, line } => located(
            file,
            line,
            "Section without title: found empty section title."@,
        ),
        ParseError::InvalidSectionHierarchy { message, file, line } => located(
            file,
            line,
            "Invalid section hierarchy: "@ + message@,
        ),
        ParseError::DuplicateSectionName { name, parent_name, file, line, previous_line } => located(
            file,
            line,
            "Duplicate section name: '"@ + name@ + "' already exists at this level under '"@ + parent_name@
                + "'. Previously defined at line "@ + decimal(previous_line as nat) + "."@,
        ),
        ParseError::InvalidGoToSection { message, file, line } => located(file, line, message@),
        ParseError::SectionNotFound { path, file, line } => located(file, line, "Section not found: "@ + path@),
        ParseError::NavigationAboveRoot { file, line } => located(file, line, "Cannot navigate above root level"@),
        ParseError::InvalidSectionName { message, name, file, line } => located(file, line, message@ + ": "@ + name@),
        ParseError::EmptySection { name, file, line } => located(
            file,
            line,
            "Section must contain at least one block: "@ + name@,
        ),
        ParseError::OptionsWithoutParent { file, line } => located(file, line, "Options must have a parent"@),
        ParseError::DuplicateVariableName { name, line } => "Error: Duplicate variable name '"@ + name@
            + "' at line "@ + decimal(line as nat),
        ParseError::MissingVariableName { line } => "Error: Missing variable name at line "@ + decimal(line as nat),
        ParseError::InvalidIntegerValue { name, value, line } => "Error: Invalid integer value '"@ + value@
            + "' for variable '"@ + name@ + "' at line "@ + decimal(line as nat),
        ParseError::InvalidVariableType { name, line } => "Error: Unknown variable type '"@ + name@ + "' at line "@
            + decimal(line as nat),
        ParseError::UnknownVariableName { name, line } => "Error: Unknown variable name '"@ + name@ + "' at line "@
            + decimal(line as nat),
        ParseError::InvalidSetSyntax { line } => "Error: Invalid set syntax at line "@ + decimal(line as nat),
        ParseError::InvalidRequireSyntax { line } => "Error: Invalid require syntax at line "@ + decimal(line as nat),
        ParseError::InvalidRequireOperator { operator, line } => "Error: Invalid require operator '"@ + operator@
            + "' at line "@ + decimal(line as nat),
        ParseError::VariablesBlockNotAtTop { line } => "Error: Variables block must appear at top of script at line "@
            + decimal(line as nat),
        ParseError::UnclosedVariablesBlock => "Error: Unclosed variables block"@,
        ParseError::MultipleErrors { errors } => messages_until(errors@, errors@.len() as int),
    }
}

/// The messages of the first `k` errors, separated by blank lines.
pub open spec fn messages_until(errors: Seq<ParseError>, k: int) -> Seq<char>
    decreases errors, k,
{
    if k <= 0 || k > errors.len() {
        seq![]
    } else if k == 1 {
        error_message(errors[0])
    } else {
        messages_until(errors, k - 1) + "\n\n"@ + error_message(errors[k - 1])
    }
}

fn push_text(out: &mut Vec<char>, text: &str)
    ensures
        final(out)@ == old(out)@ + text@,
{
    let chars = chars_of(text);
    push_all(out, chars.as_slice());
}

fn push_located(out: &mut Vec<char>, file: &Option<String>, line: usize)
    ensures
        final(out)@ == old(out)@ + file_label(*file) + ":"@ + decimal(line as nat) + ": ERROR: "@,
{
    let label = match file {
        Some(path) => match file_name_of(path.as_str()) {
            Some(name) => name,
            None => "test.cuentitos".to_string(),
        },
        None => "test.cuentitos".to_string(),
    };
    push_text(out, label.as_str());
    push_text(out, ":");
    push_decimal(out, line as u64);
    push_text(out, ": ERROR: ");
}

impl ParseError {
    /// The message of this error (see [`error_message`]).
    pub fn message(&self) -> (m: String)
        ensures
            m@ == error_message(*self),
        decreases *self,
    {
        let mut out: Vec<char> = Vec::new();
        match self {
            ParseError::UnexpectedToken { file, line } => {
                push_located(&mut out, file, *line);
                push_text(&mut out, "Unexpected token");
            },
            ParseError::UnexpectedEndOfFile { file, line } => {
                push_located(&mut out, file, *line);
                push_text(&mut out, "Unexpected end of file");
            },
            ParseError::InvalidIndentation { message, file, line } => {
                push_located(&mut out, file, *line);
                push_text(&mut out, "Invalid indentation: ");
                push_text(&mut out, message.as_str());
            },
            ParseError::SectionWithoutTitle { file, line } => {
                push_located(&mut out, file, *line);
                push_text(&mut out, "Section without title: found empty section title.");
            },
            ParseError::InvalidSectionHierarchy { message, file, line } => {
                push_located(&mut out, file, *line);
                push_text(&mut out, "Invalid section hierarchy: ");
                push_text(&mut out, message.as_str());
            },
            ParseError::DuplicateSectionName { name, parent_name, file, line, previous_line } => {
                push_located(&mut out, file, *line);
                push_text(&mut out, "Duplicate section name: '");
                push_text(&mut out, name.as_str());
                push_text(&mut out, "' already exists at this level under '");
                push_text(&mut out, parent_name.as_str());
                push_text(&mut out, "'. Previously defined at line ");
                push_decimal(&mut out, *previous_line as u64);
                push_text(&mut out, ".");
            },
            ParseError::InvalidGoToSection { message, file, line } => {
                push_located(&mut out, file, *line);
                push_text(&mut out, message.as_str());
            },
            ParseError::SectionNotFound { path, file, line } => {
                push_located(&mut out, file, *line);
                push_text(&mut out, "Section not found: ");
                push_text(&mut out, path.as_str());
            },
            ParseError::NavigationAboveRoot { file, line } => {
                push_located(&mut out, file, *line);
                push_text(&mut out, "Cannot navigate above root level");
            },
            ParseError::InvalidSectionName { message, name, file, line } => {
                push_located(&mut out, file, *line);
                push_text(&mut out, message.as_str());
                push_text(&mut out, ": ");
                push_text(&mut out, name.as_str());
            },
            ParseError::EmptySection { name, file, line } => {
                push_located(&mut out, file, *line);
                push_text(&mut out, "Section must contain at least one block: ");
                push_text(&mut out, name.as_str());
            },
            ParseError::OptionsWithoutParent { file, line } => {
                push_located(&mut out, file, *line);
                push_text(&mut out, "Options must have a parent");
            },
            ParseError::DuplicateVariableName { name, line } => {
                push_text(&mut out, "Error: Duplicate variable name '");
                push_text(&mut out, name.as_str());
                push_text(&mut out, "' at line ");
                push_decimal(&mut out, *line as u64);
            },
            ParseError::MissingVariableName { line } => {
                push_text(&mut out, "Error: Missing variable name at line ");
                push_decimal(&mut out, *line as u64);
            },
            ParseError::InvalidIntegerValue { name, value, line } => {
                push_text(&mut out, "Error: Invalid integer value '");
                push_text(&mut out, value.as_str());
                push_text(&mut out, "' for variable '");
                push_text(&mut out, name.as_str());
                push_text(&mut out, "' at line ");
                push_decimal(&mut out, *line as u64);
            },
            ParseError::InvalidVariableType { name, line } => {
                push_text(&mut out, "Error: Unknown variable type '");
                push_text(&mut out, name.as_str());
                push_text(&mut out, "' at line ");
                push_decimal(&mut out, *line as u64);
            },
            ParseError::UnknownVariableName { name, line } => {
                push_text(&mut out, "Error: Unknown variable name '");
                push_text(&mut out, name.as_str());
                push_text(&mut out, "' at line ");
                push_decimal(&mut out, *line as u64);
            },
            ParseError::InvalidSetSyntax { line } => {
                push_text(&mut out, "Error: Invalid set syntax at line ");
                push_decimal(&mut out, *line as u64);
            },
            ParseError::InvalidRequireSyntax { line } => {
                push_text(&mut out, "Error: Invalid require syntax at line ");
                push_decimal(&mut out, *line as u64);
            },
            ParseError::InvalidRequireOperator { operator, line } => {
                push_text(&mut out, "Error: Invalid require operator '");
                push_text(&mut out, operator.as_str());
                push_text(&mut out, "' at line ");
                push_decimal(&mut out, *line as u64);
            },
            ParseError::VariablesBlockNotAtTop { line } => {
                push_text(&mut out, "Error: Variables block must appear at top of script at line ");
                push_decimal(&mut out, *line as u64);
            },
            ParseError::UnclosedVariablesBlock => {
                push_text(&mut out, "Error: Unclosed variables block");
            },
            ParseError::MultipleErrors { errors } => {
                let mut i: usize = 0;
                while i < errors.len()
                    invariant
                        0 <= i <= errors@.len(),
                        out@ == messages_until(errors@, i as int),
                        *self is MultipleErrors,
                        self->errors == *errors,
                    decreases errors.len() - i,
                {
                    proof {
                        let whole = *self;
                        assert(whole is MultipleErrors);
                        assert(whole->errors == *errors);
                        assert(decreases_to!(whole => whole->errors));
                        assert(decreases_to!(whole->errors => whole->errors@));
                        assert(decreases_to!(whole->errors@ => whole->errors@[i as int]));
                    }
                    let message = errors[i].message();
                    if i > 0 {
                        push_text(&mut out, "\n\n");
                    }
                    push_text(&mut out, message.as_str());
                    i = i + 1;
                }
            },
        }
        string_from_chars(out.as_slice())
    }
}

} // verus!
