use cuentitos_parser::database::Variable;
use cuentitos_parser::model::Value;
use cuentitos_parser::story::{CompileError, Condition, I18n, Operator, Requirement};

fn i18n() -> I18n {
    I18n {
        locales: vec!["en".to_string(), "es".to_string()],
        default_locale: "en".to_string(),
        strings: vec![
            ("en".to_string(), vec![("greeting".to_string(), "Hello".to_string())]),
            ("es".to_string(), vec![("greeting".to_string(), "Hola".to_string())]),
        ],
    }
}

#[test]
fn translation_is_found_by_locale_and_id() {
    let i = i18n();
    assert_eq!(i.get_translation("en", "greeting"), "Hello");
    assert_eq!(i.get_translation("es", "greeting"), "Hola");
}

#[test]
fn missing_translation_and_locale_are_reported() {
    let i = i18n();
    assert_eq!(
        i.get_translation("en", "farewell"),
        "MISSING TRANSLATION `farewell` in locale `en`"
    );
    assert_eq!(i.get_translation("fr", "greeting"), "MISSING LOCALE `fr`");
}

#[test]
fn known_locales() {
    let i = i18n();
    assert!(i.has_locale(&"es".to_string()));
    assert!(!i.has_locale(&"fr".to_string()));
}

#[test]
fn requirements_are_met() {
    let r = Requirement {
        condition: Condition {
            variable: Variable::new("health".to_string(), Value::Integer(3)),
            operator: Operator::GreaterThan,
            value: "5".to_string(),
        },
    };
    assert!(r.condition.meets_condition());
    assert!(r.meets_requirement());
}

#[test]
fn compile_error_messages() {
    assert_eq!(CompileError::SourceNotDirectory.message(), "Source is not a folder.");
    assert_eq!(CompileError::DestinationNotDirectory.message(), "Destination is not a folder.");
}
