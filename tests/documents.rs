use journald_desktop_notifier::rules::{Config, ConfigValue};

fn from_json(v: &serde_json::Value) -> ConfigValue {
    match v {
        serde_json::Value::String(s) => ConfigValue::Text(s.clone()),
        serde_json::Value::Array(a) => ConfigValue::List(a.iter().map(from_json).collect()),
        serde_json::Value::Object(o) => {
            ConfigValue::Table(o.iter().map(|(k, v)| (k.clone(), from_json(v))).collect())
        }
        _ => ConfigValue::Other,
    }
}

fn from_toml(v: &toml::Value) -> ConfigValue {
    match v {
        toml::Value::String(s) => ConfigValue::Text(s.clone()),
        toml::Value::Array(a) => ConfigValue::List(a.iter().map(from_toml).collect()),
        toml::Value::Table(t) => {
            ConfigValue::Table(t.iter().map(|(k, v)| (k.clone(), from_toml(v))).collect())
        }
        _ => ConfigValue::Other,
    }
}

const JSON: &str = r#"{
  "match": [
    { "PRIORITY": "^[0-3]$", "allow": [ { "_SYSTEMD_UNIT": "^cron", "deny": [ { "MESSAGE": "fatal" } ] } ] },
    { "MESSAGE": "segfault" }
  ]
}"#;

const TOML: &str = r#"
[[match]]
PRIORITY = "^[0-3]$"
[[match.allow]]
_SYSTEMD_UNIT = "^cron"
[[match.allow.deny]]
MESSAGE = "fatal"

[[match]]
MESSAGE = "segfault"
"#;

fn json_config() -> Config {
    let v: serde_json::Value = serde_json::from_str(JSON).unwrap();
    Config::from_value(&from_json(&v)).unwrap()
}

fn toml_config() -> Config {
    let t: toml::Table = toml::from_str(TOML).unwrap();
    Config::from_value(&from_toml(&toml::Value::Table(t))).unwrap()
}

#[test]
fn test_deser_json() {
    let c = json_config();
    assert_eq!(c.matchers.len(), 2);
}

#[test]
fn test_deser_toml() {
    let c = toml_config();
    assert_eq!(c.matchers.len(), 2);
}

#[test]
fn test_deser_json_toml_eq() {
    let config_json = json_config();
    let config_toml = toml_config();
    assert_eq!(format!("{:?}", config_json), format!("{:?}", config_toml));
}
