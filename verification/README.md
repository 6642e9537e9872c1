# cuentitos_parser

A verified reader for cuentitos scripts: indented lines of text, sections
(`# id: Name`), jumps (`-> path`), options (`* text`), `set` and `require`
statements, and a leading `--- variables` block, compiled into a database of
blocks.

Layout of `src/`:

- `parser.rs`: the script reader (`Parser::parse`); its contract states that
  the database is well formed (a consistent block tree, sections and a
  registry that agree, every jump resolved), that each content line makes
  one block in order (with its line, level, kind and text) whose parent is
  the one the open blocks and sections give it (`expected_parent`; for a
  section, the last section one level up before it, see
  `lemma_section_parent`), and
  that the variables are those the definition lines declare; several
  problems come back as one `MultipleErrors` of at least two, none nested; a script of plain text
  within the indentation rule is always read, with no warning, and a script
  with a line that cannot be read (bad indentation, a misplaced variables
  header, a malformed section, jump or statement, an option at the root) is
  refused with that line's error, file and line among the errors reported,
  unless the reading stopped early: a content line indented two levels or
  more beyond what the open blocks allow ends the reading with that one
  `InvalidIndentation` error, naming the parser's file and that line, and
  the errors found before it are dropped; a script that is read has valid
  section names and no empty section. Within the reader, adding a section
  header states its errors exactly (too deep, a sub-section at the root, a
  name or identifier already used under the same parent, with the parent's
  name and the earlier line), and the final validation states exactly the
  errors it appends (invalid names, then, when nothing was wrong before,
  empty sections, then jumps that resolve to nothing) and the
  unreachable-code warnings after each jump. A script whose lines the
  reading accepts one by one (a leading variables block of distinct `int`
  definitions, closed; text, jumps, `set` and `require` statements over
  declared variables, each within the open levels; section headers with a
  title, a parent, and a name and identifier new under that parent;
  options below a line of text or an option that holds only options) is
  read, or refused with exactly the errors that validating the database
  read from it gives (a database whose blocks, parents, jump targets and
  section names and identifiers follow the script); when it is read, its
  warnings are those of its lines (stray spaces in a title or a jump
  target) followed by the unreachable-code warnings of its jumps, and each
  statement block holds the variable and value its line reads as. When the
  first line that is not accepted is refused, or is a section header that
  is too deep, a sub-section at the root or a repeated name or identifier,
  the first error reported is exactly that line's (unless the reading
  stopped early); the errors after it are not listed exactly.
- `database.rs`, `model.rs`, `error.rs`: the database, values and
  expressions with their checked evaluator, and errors with their messages.
- `arithmetic.rs`, `expression.rs`, `boolean_expression.rs`: the expression
  grammars, each specified as a mathematical parser.
- `parsers/`: the line parsers (sections, jumps, options, `set`, `require`,
  `req`, type inference) and the `--- variables` block parser.
- `line_parser/`, `block_parsers.rs`, `string_literal.rs`, `keyword.rs`,
  `text.rs`: lines, indentation, string literals and text helpers.
- `story.rs`: the story model read at run time (conditions, localisation,
  with a well-formedness condition that each key occurs once).
- `reading.rs`: reading a compiled story (content trees walked by a cursor,
  the database of top-level content, the runtime); each step of reading and
  each pick is specified as a function on a view of the content tree.
