use cuentitos_parser::database::Variable;
use cuentitos_parser::model::Value;
use cuentitos_parser::reading::{Content, Database, Readable, Runtime};
use cuentitos_parser::story::{Condition, ContentType, Operator, OutputText, Requirement};

fn node(text: &str, content_type: ContentType, content: Vec<Content>) -> Content {
    Content {
        content,
        text: text.to_string(),
        content_type,
        requirements: Vec::new(),
        modifiers: Vec::new(),
        cursor: 0,
    }
}

fn text(t: &str, content: Vec<Content>) -> Content {
    node(t, ContentType::Text, content)
}

fn choice(t: &str, content: Vec<Content>) -> Content {
    node(t, ContentType::Choice, content)
}

fn shown(t: &str, choices: &[&str]) -> Option<OutputText> {
    Some(OutputText { text: t.to_string(), choices: choices.iter().map(|c| c.to_string()).collect() })
}

fn question() -> Content {
    text(
        "Where to?",
        vec![
            choice("North", vec![text("It is cold.", vec![])]),
            choice("South", vec![text("It is warm.", vec![])]),
            text("The road goes on.", vec![]),
        ],
    )
}

#[test]
fn a_text_shows_itself_with_its_leading_choices() {
    let mut c = question();
    assert_eq!(c.get_next_output(), shown("Where to?", &["North", "South"]));
    assert_eq!(c.cursor, 1);
}

#[test]
fn choices_stop_at_the_first_child_that_is_not_a_choice() {
    let c = text(
        "t",
        vec![choice("a", vec![]), choice("b", vec![]), text("c", vec![]), choice("d", vec![])],
    );
    assert_eq!(c.get_choices(), vec!["a".to_string(), "b".to_string()]);
    let none = text("t", vec![text("c", vec![]), choice("d", vec![])]);
    assert!(none.get_choices().is_empty());
}

#[test]
fn reading_stands_at_a_choice_after_its_text() {
    let mut c = question();
    assert!(!c.is_in_choice());
    c.get_next_output();
    assert!(c.is_in_choice());
}

#[test]
fn picking_the_second_option_reads_into_it() {
    let mut c = question();
    c.get_next_output();
    assert_eq!(c.pick_choice(1), shown("It is warm.", &[]));
    assert_eq!(c.cursor, 3);
}

#[test]
fn picking_the_first_option_reads_into_it() {
    let mut c = question();
    c.get_next_output();
    assert_eq!(c.pick_choice(0), shown("It is cold.", &[]));
    assert_eq!(c.cursor, 2);
}

#[test]
fn picking_past_the_choices_shows_nothing() {
    let mut c = question();
    c.get_next_output();
    assert_eq!(c.pick_choice(2), None);
    assert_eq!(c.pick_choice(7), None);
}

#[test]
fn picking_away_from_a_choice_changes_nothing() {
    let mut c = question();
    assert_eq!(c.pick_choice(0), None);
    assert_eq!(c.cursor, 0);
}

#[test]
fn a_choice_has_no_line_of_its_own() {
    let mut c = choice("Go", vec![text("Gone.", vec![])]);
    assert_eq!(c.get_next_output(), shown("Gone.", &[]));
    assert_eq!(c.get_next_output(), None);
    assert_eq!(c.cursor, 2);
}

#[test]
fn content_read_through_stays_read_through() {
    let mut c = text("Only line.", vec![]);
    assert_eq!(c.get_next_output(), shown("Only line.", &[]));
    assert_eq!(c.get_next_output(), None);
    let cursor = c.cursor;
    assert_eq!(c.get_next_output(), None);
    assert_eq!(c.cursor, cursor);
    assert_eq!(c.text, "Only line.");
}

#[test]
fn requirements_are_always_met() {
    let mut c = text("t", vec![]);
    c.requirements.push(Requirement {
        condition: Condition {
            variable: Variable::new("x".to_string(), Value::Integer(0)),
            operator: Operator::GreaterThan,
            value: "5".to_string(),
        },
    });
    assert!(c.meets_requirements());
    assert!(text("u", vec![]).meets_requirements());
}

fn story() -> Database {
    Database {
        knots: Vec::new(),
        content: vec![text("Hello.", vec![]), question(), text("The end.", vec![])],
        cursor: 0,
    }
}

#[test]
fn a_database_is_read_item_by_item() {
    let mut db = story();
    assert_eq!(db.get_next_output(), shown("Hello.", &[]));
    assert_eq!(db.get_next_output(), shown("Where to?", &["North", "South"]));
    assert_eq!(db.cursor, 1);
    assert!(db.is_in_choice());
}

#[test]
fn a_database_passes_picks_to_the_item_at_the_cursor() {
    let mut db = story();
    db.get_next_output();
    db.get_next_output();
    assert_eq!(db.pick_choice(0), shown("It is cold.", &[]));
    assert_eq!(db.cursor, 1);
}

#[test]
fn an_exhausted_database_stays_exhausted() {
    let mut db = Database { knots: Vec::new(), content: vec![text("One.", vec![]), text("Two.", vec![])], cursor: 0 };
    assert_eq!(db.get_next_output(), shown("One.", &[]));
    assert_eq!(db.get_next_output(), shown("Two.", &[]));
    assert_eq!(db.get_next_output(), None);
    assert_eq!(db.cursor, 2);
    assert_eq!(db.get_next_output(), None);
    assert_eq!(db.cursor, 2);
}

#[test]
fn a_database_at_a_top_level_choice_moves_to_the_picked_one() {
    let mut db = Database {
        knots: Vec::new(),
        content: vec![choice("Left", vec![text("Went left.", vec![])]), choice("Right", vec![text("Went right.", vec![])])],
        cursor: 0,
    };
    assert!(db.is_in_choice());
    assert_eq!(db.pick_choice(1), shown("Went right.", &[]));
    assert_eq!(db.cursor, 1);
}

#[test]
fn the_runtime_reads_its_database() {
    let mut rt = Runtime::new(story());
    assert_eq!(rt.next_text(), shown("Hello.", &[]));
    assert_eq!(rt.next_text(), shown("Where to?", &["North", "South"]));
    assert_eq!(rt.pick_choice(1), shown("It is warm.", &[]));
    assert_eq!(rt.next_text(), shown("The road goes on.", &[]));
    assert_eq!(rt.next_text(), shown("The end.", &[]));
    assert_eq!(rt.next_text(), None);
}
