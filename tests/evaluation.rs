use journald_desktop_notifier::eval::{FieldCache, Step};
use journald_desktop_notifier::rules::{Allow, Config, ConfigValue, Deny};

fn text(s: &str) -> ConfigValue {
    ConfigValue::Text(s.to_string())
}

fn table(entries: Vec<(&str, ConfigValue)>) -> ConfigValue {
    ConfigValue::Table(entries.into_iter().map(|(k, v)| (k.to_string(), v)).collect())
}

fn rules(matchers: Vec<ConfigValue>) -> Config {
    Config::from_value(&table(vec![("match", ConfigValue::List(matchers))])).unwrap()
}

/// Runs evaluation to a verdict against an in-memory record, and returns the
/// verdict with the names of the fields fetched, in order.
fn run(config: &Config, record: &[(&str, &[u8])]) -> (bool, Vec<String>) {
    let mut cache = FieldCache::new();
    let mut fetched = Vec::new();
    loop {
        match config.evaluate(&cache) {
            Step::Verdict(b) => return (b, fetched),
            Step::Fetch(name) => {
                assert!(cache.get(&name).is_none());
                let value = record.iter().find(|(k, _)| *k == name).map(|(_, v)| v.to_vec());
                fetched.push(name.clone());
                cache.insert(name, value);
            }
        }
    }
}

fn scenario_a() -> Config {
    rules(vec![table(vec![
        ("PRIORITY", text("3")),
        ("allow", ConfigValue::List(vec![table(vec![("UNIT", text("cron.*"))])])),
    ])])
}

#[test]
fn allow_escape_fires() {
    let (v, _) = run(&scenario_a(), &[("PRIORITY", b"3"), ("UNIT", b"cron.service")]);
    assert!(!v);
}

#[test]
fn allow_escape_does_not_fire() {
    let (v, fetched) = run(&scenario_a(), &[("PRIORITY", b"3"), ("UNIT", b"sshd.service")]);
    assert!(v);
    assert_eq!(fetched, vec!["PRIORITY".to_string(), "UNIT".to_string()]);
}

#[test]
fn missing_field_is_no_match() {
    let config = rules(vec![table(vec![("MESSAGE", text("segfault"))])]);
    let (v, fetched) = run(&config, &[("PRIORITY", b"3")]);
    assert!(!v);
    assert_eq!(fetched, vec!["MESSAGE".to_string()]);
}

#[test]
fn second_rule_matches_after_first_fails() {
    let config = rules(vec![
        table(vec![("SYSLOG_IDENTIFIER", text("^kernel$"))]),
        table(vec![("MESSAGE", text("segfault"))]),
    ]);
    let (v, fetched) = run(&config, &[("SYSLOG_IDENTIFIER", b"sshd"), ("MESSAGE", b"a segfault at 0")]);
    assert!(v);
    assert_eq!(fetched, vec!["SYSLOG_IDENTIFIER".to_string(), "MESSAGE".to_string()]);
}

#[test]
fn each_field_fetched_once() {
    let config = rules(vec![
        table(vec![("UNIT", text("^a")), ("PRIORITY", text("^9$"))]),
        table(vec![
            ("UNIT", text("^ab")),
            ("allow", ConfigValue::List(vec![table(vec![("UNIT", text("c$"))])])),
        ]),
    ]);
    let (v, fetched) = run(&config, &[("UNIT", b"abc"), ("PRIORITY", b"3")]);
    assert!(!v);
    assert_eq!(fetched.iter().filter(|n| n.as_str() == "UNIT").count(), 1);
    assert_eq!(fetched.len(), 2);
}

#[test]
fn same_record_same_verdict() {
    let config = scenario_a();
    let record: &[(&str, &[u8])] = &[("PRIORITY", b"3"), ("UNIT", b"sshd.service")];
    assert_eq!(run(&config, record), run(&config, record));
}

#[test]
fn empty_deny_matches_everything() {
    let config = rules(vec![table(vec![])]);
    assert_eq!(run(&config, &[]), (true, vec![]));
    assert_eq!(run(&config, &[("MESSAGE", b"x")]).0, true);
}

#[test]
fn empty_allow_overrides_everything() {
    let allow = Allow::from_value(&table(vec![])).unwrap();
    assert_eq!(allow.allows(&FieldCache::new()), Step::Verdict(true));
    let config = rules(vec![table(vec![("allow", ConfigValue::List(vec![table(vec![])]))])]);
    assert_eq!(run(&config, &[("MESSAGE", b"x")]).0, false);
}

#[test]
fn absent_field_blocks_children() {
    let deny = Deny::from_value(&table(vec![
        ("MESSAGE", text(".*")),
        ("UNIT", text(".*")),
        ("allow", ConfigValue::List(vec![table(vec![("PRIORITY", text("3"))])])),
    ]))
    .unwrap();
    let mut cache = FieldCache::new();
    cache.insert("MESSAGE".to_string(), None);
    assert_eq!(deny.denies(&cache), Step::Verdict(false));
}

#[test]
fn nested_deny_inside_allow() {
    let config = rules(vec![table(vec![
        ("PRIORITY", text("^[0-3]$")),
        (
            "allow",
            ConfigValue::List(vec![table(vec![
                ("UNIT", text("^cron")),
                ("deny", ConfigValue::List(vec![table(vec![("MESSAGE", text("fatal"))])])),
            ])]),
        ),
    ])]);
    assert!(!run(&config, &[("PRIORITY", b"2"), ("UNIT", b"cron.service"), ("MESSAGE", b"ok")]).0);
    assert!(run(&config, &[("PRIORITY", b"2"), ("UNIT", b"cron.service"), ("MESSAGE", b"fatal")]).0);
    assert!(!run(&config, &[("PRIORITY", b"5"), ("UNIT", b"x")]).0);
}

#[test]
fn bytes_that_are_not_text_are_matched() {
    let config = rules(vec![table(vec![("MESSAGE", text("(?-u)\\xff"))])]);
    assert!(run(&config, &[("MESSAGE", &[0x41, 0xff, 0x00])]).0);
    assert!(!run(&config, &[("MESSAGE", b"plain")]).0);
}

#[test]
fn no_rules_never_match() {
    let config = Config::from_value(&table(vec![])).unwrap();
    assert!(config.matchers.is_empty());
    assert_eq!(run(&config, &[("MESSAGE", b"x")]), (false, vec![]));
}

fn owned(record: &[(&str, &[u8])]) -> Vec<(String, Vec<u8>)> {
    record.iter().map(|(k, v)| (k.to_string(), v.to_vec())).collect()
}

#[test]
fn record_scenarios() {
    let a = scenario_a();
    assert!(!a.evaluate_record(&owned(&[("PRIORITY", b"3"), ("UNIT", b"cron.service")])));
    assert!(a.evaluate_record(&owned(&[("PRIORITY", b"3"), ("UNIT", b"sshd.service")])));
    assert!(!a.evaluate_record(&owned(&[("PRIORITY", b"4"), ("UNIT", b"sshd.service")])));
    let b = rules(vec![table(vec![("MESSAGE", text("segfault"))])]);
    assert!(!b.evaluate_record(&owned(&[("PRIORITY", b"3")])));
    let c = rules(vec![
        table(vec![("SYSLOG_IDENTIFIER", text("^kernel$"))]),
        table(vec![("MESSAGE", text("segfault"))]),
    ]);
    assert!(c.evaluate_record(&owned(&[("MESSAGE", b"segfault"), ("SYSLOG_IDENTIFIER", b"sshd")])));
}

#[test]
fn record_first_entry_of_a_name_counts() {
    let b = rules(vec![table(vec![("MESSAGE", text("^segfault$"))])]);
    assert!(b.evaluate_record(&owned(&[("MESSAGE", b"segfault"), ("MESSAGE", b"other")])));
    assert!(!b.evaluate_record(&owned(&[("MESSAGE", b"other"), ("MESSAGE", b"segfault")])));
}
