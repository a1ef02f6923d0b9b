use journald_desktop_notifier::pattern::Pattern;
use journald_desktop_notifier::rules::{same_text, Config, ConfigError, ConfigValue, Deny, FieldName};

fn text(s: &str) -> ConfigValue {
    ConfigValue::Text(s.to_string())
}

fn table(entries: Vec<(&str, ConfigValue)>) -> ConfigValue {
    ConfigValue::Table(entries.into_iter().map(|(k, v)| (k.to_string(), v)).collect())
}

#[test]
fn lowercase_field_name_rejected() {
    match FieldName::new("foo") {
        Err(ConfigError::InvalidFieldName(k)) => assert_eq!(k, "foo"),
        other => panic!("unexpected {:?}", other),
    }
    let r = Config::from_value(&table(vec![(
        "match",
        ConfigValue::List(vec![table(vec![("foo", text("x"))])]),
    )]));
    match r {
        Err(ConfigError::InvalidFieldName(k)) => assert_eq!(k, "foo"),
        other => panic!("unexpected {:?}", other),
    }
}

#[test]
fn field_names() {
    assert_eq!(FieldName::new("_SYSTEMD_UNIT").unwrap().as_str(), "_SYSTEMD_UNIT");
    assert!(FieldName::new("CODE_LINE2").is_ok());
    assert!(FieldName::new("").is_err());
    assert!(FieldName::new("A-B").is_err());
    assert!(FieldName::new("ÄB").is_err());
}

#[test]
fn invalid_pattern_rejected() {
    let r = Deny::from_value(&table(vec![("MESSAGE", text("foo(bar"))]));
    match r {
        Err(ConfigError::InvalidPattern { field, pattern, .. }) => {
            assert_eq!(field, "MESSAGE");
            assert_eq!(pattern, "foo(bar");
        }
        other => panic!("unexpected {:?}", other),
    }
}

#[test]
fn pattern_keeps_source_and_matches() {
    let p = Pattern::new("cron.*").unwrap();
    assert_eq!(p.as_str(), "cron.*");
    assert!(p.is_match(b"cron.service"));
    assert!(!p.is_match(b"sshd.service"));
    assert!(Pattern::new("(").is_err());
}

#[test]
fn shape_errors() {
    assert!(matches!(Deny::from_value(&text("x")), Err(ConfigError::NotATable)));
    assert!(matches!(
        Deny::from_value(&table(vec![("MESSAGE", ConfigValue::Other)])),
        Err(ConfigError::NotText(k)) if k == "MESSAGE"
    ));
    assert!(matches!(
        Deny::from_value(&table(vec![("allow", text("x"))])),
        Err(ConfigError::NotAList(k)) if k == "allow"
    ));
    assert!(matches!(
        Deny::from_value(&table(vec![("A", text("x")), ("A", text("y"))])),
        Err(ConfigError::DuplicateKey(k)) if k == "A"
    ));
    assert!(matches!(
        Config::from_value(&table(vec![("match", text("x"))])),
        Err(ConfigError::NotAList(k)) if k == "match"
    ));
    assert!(matches!(Config::from_value(&ConfigValue::Other), Err(ConfigError::NotATable)));
}

#[test]
fn reserved_key_depends_on_level() {
    // Under a deny rule "deny" is not reserved, and is no valid field name.
    assert!(matches!(
        Deny::from_value(&table(vec![("deny", ConfigValue::List(vec![]))])),
        Err(ConfigError::InvalidFieldName(k)) if k == "deny"
    ));
    let d = Deny::from_value(&table(vec![
        ("UNIT", text("a")),
        ("allow", ConfigValue::List(vec![table(vec![("deny", ConfigValue::List(vec![]))])])),
        ("PRIORITY", text("3")),
    ]))
    .unwrap();
    assert_eq!(d.field_regexes.len(), 2);
    assert_eq!(d.field_regexes[0].0.as_str(), "UNIT");
    assert_eq!(d.field_regexes[1].0.as_str(), "PRIORITY");
    assert_eq!(d.field_regexes[1].1.as_str(), "3");
    assert_eq!(d.allow_rules.len(), 1);
    assert!(d.allow_rules[0].deny_rules.is_empty());
}

#[test]
fn same_text_compares_characters() {
    assert!(same_text("allow", "allow"));
    assert!(!same_text("allow", "allo"));
    assert!(!same_text("allow", "Allow"));
}
