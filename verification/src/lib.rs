//! Reads cuentitos scripts: indented lines of text, sections, jumps,
//! options, and statements over declared variables, compiled into a
//! database of blocks.
use vstd::prelude::*;

pub mod text;
pub mod model;
pub mod error;
pub mod database;
pub mod line_parser;
pub mod parsers;
pub mod arithmetic;
pub mod expression;
pub mod boolean_expression;
pub mod keyword;
pub mod string_literal;
pub mod parser;
pub mod story;
pub mod block_parsers;
pub mod reading;

use crate::database::{BlockType, Database};
use crate::error::{ParseError, Warning};
use crate::parser::{
    blocks_follow, content_lines, errors_of, fault_line, fault_of, faults_reported, flat_errors, parents_follow, plain_strings, definition_lines, jumps_resolved, plain_script, refused_line, section_names_ok, has_content, registry_upto, registry_views,
    scan_lines, sections_fit, statements_follow, stopped_early, story_prefix, story_script, validated_as, validation_error, variables_follow, warned_as, Parser,
};
use crate::text::lines_of;

verus! {

/// Reads `script` with a fresh [`Parser`] (see [`Parser::parse`]).
pub fn parse(script: &str) -> (r: Result<(Database, Vec<Warning>), ParseError>)
    ensures
        r matches Ok((db, warnings)) ==> {
            &&& db.wf()
            &&& db.blocks@.len() >= 2
            &&& db.blocks@[0].block_type == BlockType::Start
            &&& db.blocks@[0].parent_id is None
            &&& db.blocks@.last().block_type == BlockType::End
            &&& db.blocks@.last().parent_id is None
            &&& db.blocks@.len() == content_lines(script@).len() + 2
            &&& blocks_follow(db, lines_of(script@), content_lines(script@))
            &&& parents_follow(db, lines_of(script@), content_lines(script@))
            &&& sections_fit(lines_of(script@), content_lines(script@))
            &&& section_names_ok(db)
            &&& forall|i: int| 0 <= i < db.blocks@.len() && (#[trigger] db.blocks@[i]).block_type is Section ==> has_content(db, i)
            &&& variables_follow(db, lines_of(script@), definition_lines(script@))
            &&& statements_follow(db, lines_of(script@), content_lines(script@))
            &&& jumps_resolved(db, lines_of(script@), content_lines(script@))
            &&& registry_views(db.section_registry@) == registry_upto(db, db.blocks@.len() as int)
        },
        plain_script(lines_of(script@)) ==> (r matches Ok((db, warnings)) && warnings@.len() == 0
            && plain_strings(db, lines_of(script@), content_lines(script@))),
        (exists|i: int| #[trigger] refused_line(lines_of(script@), i))
            || scan_lines(lines_of(script@), lines_of(script@).len() as int).in_variables ==> r is Err,
        r matches Err(ParseError::MultipleErrors { errors }) ==> errors@.len() >= 2 && flat_errors(errors@),
        stopped_early(lines_of(script@), None, r)
            || faults_reported(lines_of(script@), lines_of(script@).len() as int, None, errors_of(r)),
        scan_lines(lines_of(script@), lines_of(script@).len() as int).in_variables ==> stopped_early(lines_of(script@), None, r)
            || errors_of(r).contains(ParseError::UnclosedVariablesBlock),
        forall|i: int| 0 <= i < lines_of(script@).len() && story_prefix(lines_of(script@), i) && #[trigger] fault_line(
            lines_of(script@),
            i,
        ) ==> stopped_early(lines_of(script@), None, r) || (errors_of(r).len() > 0 && fault_of(
            lines_of(script@),
            i,
            None,
            errors_of(r)[0],
        )),
        story_script(lines_of(script@)) ==> r is Ok || forall|k: int|
            0 <= k < errors_of(r).len() ==> validation_error(#[trigger] errors_of(r)[k]),
        story_script(lines_of(script@)) ==> validated_as(
            lines_of(script@),
            content_lines(script@),
            errors_of(r),
            None,
        ),
        story_script(lines_of(script@)) && r is Ok ==> warned_as(
            lines_of(script@),
            content_lines(script@),
            r->Ok_0.1@,
            None,
        ),
{
    let mut parser = Parser::new();
    parser.parse(script)
}

} // verus!
