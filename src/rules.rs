//! The rule tree: field names, deny and allow nodes, and their construction
//! from a parsed configuration document.

use vstd::prelude::*;
use crate::pattern::{regex_compiles, Pattern};

verus! {

/// A configuration document after parsing, in either of the accepted
/// textual formats.
#[derive(Debug)]
pub enum ConfigValue {
    Text(String),
    List(Vec<ConfigValue>),
    Table(Vec<(String, ConfigValue)>),
    /// Numbers, booleans and anything else that a rule cannot hold.
    Other,
}

/// Why a configuration could not be turned into a rule set.
#[derive(Debug)]
pub enum ConfigError {
    /// The text is neither a valid document of the first format nor of the second.
    Parse(String),
    /// A rule, or the document root, is not a table.
    NotATable,
    /// The value under this key must be a list of rules.
    NotAList(String),
    /// The value under this field name must be a pattern string.
    NotText(String),
    /// The key occurs twice in one table.
    DuplicateKey(String),
    /// The key is not made of `A`-`Z`, `0`-`9` and `_` only, or is empty.
    InvalidFieldName(String),
    /// The pattern under `field` is not a valid regular expression.
    InvalidPattern { field: String, pattern: String, cause: regex::Error },
}

/// What an error says of the input holds: an invalid name is invalid, an
/// invalid pattern does not compile.
pub open spec fn error_sound(e: ConfigError) -> bool {
    match e {
        ConfigError::InvalidFieldName(k) => !valid_field_name(k@),
        ConfigError::InvalidPattern { pattern, .. } => !regex_compiles(pattern@),
        _ => true,
    }
}

pub open spec fn field_name_char(c: char) -> bool {
    ('A' <= c && c <= 'Z') || ('0' <= c && c <= '9') || c == '_'
}

pub open spec fn valid_field_name(s: Seq<char>) -> bool {
    s.len() > 0 && forall|i: int| 0 <= i < s.len() ==> #[trigger] field_name_char(s[i])
}

/// The name of a record field: non-empty, of `A`-`Z`, `0`-`9` and `_` only.
#[derive(Debug)]
pub struct FieldName {
    name: String,
}

impl FieldName {
    pub closed spec fn view(&self) -> Seq<char> {
        self.name@
    }

    pub closed spec fn wf(&self) -> bool {
        valid_field_name(self.name@)
    }

    pub fn new(name: &str) -> (r: Result<FieldName, ConfigError>)
        ensures
            r.is_ok() == valid_field_name(name@),
            r matches Ok(f) ==> f@ == name@ && f.wf(),
            r matches Err(e) ==> e matches ConfigError::InvalidFieldName(k) && k@ == name@,
    {
        let n = name.unicode_len();
        let mut ok = n > 0;
        let mut i: usize = 0;
        while i < n
            invariant
                n == name@.len(),
                i <= n,
                ok == (n > 0 && forall|j: int| 0 <= j < i ==> #[trigger] field_name_char(name@[j])),
            decreases n - i,
        {
            let c = name.get_char(i);
            if !(('A' <= c && c <= 'Z') || ('0' <= c && c <= '9') || c == '_') {
                assert(!field_name_char(name@[i as int]));
                ok = false;
            }
            assert(ok ==> forall|j: int| 0 <= j < i + 1 ==> #[trigger] field_name_char(name@[j]));
            i = i + 1;
        }
        if ok {
            Ok(FieldName { name: name.to_owned() })
        } else {
            Err(ConfigError::InvalidFieldName(name.to_owned()))
        }
    }

    pub fn as_str(&self) -> (r: &str)
        ensures
            r@ == self@,
    {
        self.name.as_str()
    }
}

/// Whether two strings hold the same characters.
pub fn same_text(a: &str, b: &str) -> (r: bool)
    ensures
        r == (a@ == b@),
{
    let n = a.unicode_len();
    if n != b.unicode_len() {
        return false;
    }
    let mut i: usize = 0;
    while i < n
        invariant
            n == a@.len(),
            n == b@.len(),
            i <= n,
            forall|j: int| 0 <= j < i ==> a@[j] == b@[j],
        decreases n - i,
    {
        if a.get_char(i) != b.get_char(i) {
            return false;
        }
        i = i + 1;
    }
    assert(a@ =~= b@);
    true
}


/// A rule that raises an alert: every pattern matches, and no allow rule does.
#[derive(Debug)]
pub struct Deny {
    pub allow_rules: Vec<Allow>,
    pub field_regexes: Vec<(FieldName, Pattern)>,
}

/// An exception to a deny rule: every pattern matches, and no deny rule does.
#[derive(Debug)]
pub struct Allow {
    pub deny_rules: Vec<Deny>,
    pub field_regexes: Vec<(FieldName, Pattern)>,
}

/// The whole rule set: a record raises an alert when one of the matchers denies it.
#[derive(Debug)]
pub struct Config {
    pub matchers: Vec<Deny>,
}

pub open spec fn keys_unique(entries: Seq<(String, ConfigValue)>) -> bool {
    forall|i: int, j: int|
        0 <= i < entries.len() && 0 <= j < entries.len() && i != j ==> #[trigger] entries[i].0@
            != #[trigger] entries[j].0@
}

/// The position of `key` in a table whose keys are unique.
pub open spec fn key_index(entries: Seq<(String, ConfigValue)>, key: Seq<char>) -> Option<int> {
    if exists|i: int| 0 <= i < entries.len() && #[trigger] entries[i].0@ == key {
        Some(choose|i: int| 0 <= i < entries.len() && #[trigger] entries[i].0@ == key)
    } else {
        None
    }
}

proof fn lemma_key_index(entries: Seq<(String, ConfigValue)>, key: Seq<char>)
    ensures
        key_index(entries, key) matches Some(j) ==> 0 <= j < entries.len() && entries[j].0@ == key,
{
}

/// A table entry that holds a valid field name and a valid pattern.
pub open spec fn pattern_entry_ok(e: (String, ConfigValue)) -> bool {
    valid_field_name(e.0@) && (e.1 matches ConfigValue::Text(s) && regex_compiles(s@))
}

/// The compiled entry `f` stands for the table entry `e`.
pub open spec fn field_from(f: (FieldName, Pattern), e: (String, ConfigValue)) -> bool {
    f.0@ == e.0@ && f.0.wf() && (e.1 matches ConfigValue::Text(s) && f.1@ == s@)
}

/// `fields` are the entries of the table in order, but for the one at `skip`.
pub open spec fn fields_from(
    fields: Seq<(FieldName, Pattern)>,
    entries: Seq<(String, ConfigValue)>,
    skip: Option<int>,
) -> bool {
    match skip {
        None => fields.len() == entries.len() && forall|i: int|
            0 <= i < fields.len() ==> #[trigger] field_from(fields[i], entries[i]),
        Some(j) => fields.len() + 1 == entries.len() && (forall|i: int|
            0 <= i < j ==> #[trigger] field_from(fields[i], entries[i])) && (forall|i: int|
            j <= i < fields.len() ==> #[trigger] field_from(fields[i], entries[i + 1])),
    }
}

/// Every entry of the table but the one under `reserved` is a valid pattern entry.
pub open spec fn pattern_entries_ok(entries: Seq<(String, ConfigValue)>, reserved: Seq<char>) -> bool {
    forall|i: int| 0 <= i < entries.len() && #[trigger] entries[i].0@ != reserved
        ==> pattern_entry_ok(entries[i])
}

/// `v` describes a valid rule whose children sit under `reserved` and whose
/// children's children sit under `other`.
pub open spec fn rule_ok(v: ConfigValue, reserved: Seq<char>, other: Seq<char>) -> bool
    decreases v,
{
    match v {
        ConfigValue::Table(entries) => keys_unique(entries@) && pattern_entries_ok(entries@, reserved)
            && forall|i: int| 0 <= i < entries@.len() && #[trigger] entries@[i].0@ == reserved
                ==> (entries@[i].1 matches ConfigValue::List(items) && forall|k: int|
                0 <= k < items@.len() ==> rule_ok(#[trigger] items@[k], other, reserved)),
        _ => false,
    }
}

pub open spec fn allow_key() -> Seq<char> {
    "allow"@
}

pub open spec fn deny_key() -> Seq<char> {
    "deny"@
}

pub open spec fn match_key() -> Seq<char> {
    "match"@
}

/// The rule `d` was built from the table `v`.
pub open spec fn deny_from(d: Deny, v: ConfigValue) -> bool
    decreases v,
{
    match v {
        ConfigValue::Table(entries) => {
            let idx = key_index(entries@, allow_key());
            fields_from(d.field_regexes@, entries@, idx) && match idx {
                None => d.allow_rules@.len() == 0,
                Some(j) => entries@[j].1 matches ConfigValue::List(items) && d.allow_rules@.len()
                    == items@.len() && forall|k: int|
                    0 <= k < items@.len() ==> allow_from(#[trigger] d.allow_rules@[k], items@[k]),
            }
        },
        _ => false,
    }
}

/// The rule `a` was built from the table `v`.
pub open spec fn allow_from(a: Allow, v: ConfigValue) -> bool
    decreases v,
{
    match v {
        ConfigValue::Table(entries) => {
            let idx = key_index(entries@, deny_key());
            fields_from(a.field_regexes@, entries@, idx) && match idx {
                None => a.deny_rules@.len() == 0,
                Some(j) => entries@[j].1 matches ConfigValue::List(items) && a.deny_rules@.len()
                    == items@.len() && forall|k: int|
                    0 <= k < items@.len() ==> deny_from(#[trigger] a.deny_rules@[k], items@[k]),
            }
        },
        _ => false,
    }
}


/// Fails on the first key that occurs twice in the table.
fn check_unique(entries: &Vec<(String, ConfigValue)>) -> (r: Result<(), ConfigError>)
    ensures
        r.is_ok() == keys_unique(entries@),
        r matches Err(e) ==> e is DuplicateKey,
{
    let n = entries.len();
    let mut i: usize = 0;
    while i < n
        invariant
            n == entries@.len(),
            i <= n,
            forall|a: int, b: int|
                0 <= a < i && 0 <= b < i && a != b ==> #[trigger] entries@[a].0@
                    != #[trigger] entries@[b].0@,
        decreases n - i,
    {
        let mut m: usize = 0;
        while m < i
            invariant
                n == entries@.len(),
                i < n,
                m <= i,
                forall|a: int| 0 <= a < m ==> #[trigger] entries@[a].0@ != entries@[i as int].0@,
            decreases i - m,
        {
            if same_text(entries[m].0.as_str(), entries[i].0.as_str()) {
                return Err(ConfigError::DuplicateKey(entries[i].0.clone()));
            }
            m = m + 1;
        }
        i = i + 1;
    }
    Ok(())
}

/// The index `skip` is the position `at`.
spec fn same_index(skip: Option<usize>, at: Option<int>) -> bool {
    match (skip, at) {
        (Some(a), Some(b)) => a as int == b,
        (None, None) => true,
        _ => false,
    }
}

/// The position of `key` in a table whose keys are unique.
fn find_key(entries: &Vec<(String, ConfigValue)>, key: &str) -> (r: Option<usize>)
    requires
        keys_unique(entries@),
    ensures
        same_index(r, key_index(entries@, key@)),
{
    let n = entries.len();
    let mut i: usize = 0;
    while i < n
        invariant
            n == entries@.len(),
            i <= n,
            keys_unique(entries@),
            forall|a: int| 0 <= a < i ==> #[trigger] entries@[a].0@ != key@,
        decreases n - i,
    {
        if same_text(entries[i].0.as_str(), key) {
            assert(entries@[i as int].0@ == key@);
            assert(exists|j: int| 0 <= j < entries@.len() && #[trigger] entries@[j].0@ == key@);
            let ghost j = choose|j: int| 0 <= j < entries@.len() && #[trigger] entries@[j].0@ == key@;
            proof {
                if j != i as int {
                    assert(entries@[j].0@ != entries@[i as int].0@);
                }
            }
            return Some(i);
        }
        i = i + 1;
    }
    None
}

/// Where the `a`-th compiled entry comes from when the entry at `skip` is left out.
spec fn source_index(skip: Option<usize>, a: int) -> int {
    match skip {
        Some(j) if j <= a => a + 1,
        _ => a,
    }
}

/// Compiles every entry of the table but the one at `skip`.
fn rule_fields(entries: &Vec<(String, ConfigValue)>, skip: Option<usize>, reserved: &str) -> (r: Result<
    Vec<(FieldName, Pattern)>,
    ConfigError,
>)
    requires
        keys_unique(entries@),
        same_index(skip, key_index(entries@, reserved@)),
    ensures
        r.is_ok() == pattern_entries_ok(entries@, reserved@),
        r matches Ok(fields) ==> fields_from(fields@, entries@, key_index(entries@, reserved@)),
        r matches Err(e) ==> (e is InvalidFieldName || e is NotText || e is InvalidPattern) && error_sound(e),
{
    let n = entries.len();
    let mut fields: Vec<(FieldName, Pattern)> = Vec::new();
    let mut i: usize = 0;
    proof {
        if let Some(j) = key_index(entries@, reserved@) {
            assert(entries@[j].0@ == reserved@);
        }
    }
    while i < n
        invariant
            n == entries@.len(),
            i <= n,
            keys_unique(entries@),
            same_index(skip, key_index(entries@, reserved@)),
            skip matches Some(j) ==> j < n && entries@[j as int].0@ == reserved@,
            skip is None ==> forall|a: int| 0 <= a < n ==> #[trigger] entries@[a].0@ != reserved@,
            forall|a: int| 0 <= a < i && #[trigger] entries@[a].0@ != reserved@ ==> pattern_entry_ok(entries@[a]),
            match skip {
                Some(j) if j < i => fields@.len() + 1 == i,
                _ => fields@.len() == i,
            },
            forall|a: int| 0 <= a < fields@.len() ==> #[trigger] field_from(fields@[a], entries@[
                source_index(skip, a)]),
        decreases n - i,
    {
        if skip == Some(i) {
            assert(entries@[i as int].0@ == reserved@);
        } else {
            let key = &entries[i].0;
            proof {
                if entries@[i as int].0@ == reserved@ {
                    assert(skip is Some);
                    let j = skip->Some_0;
                    assert(entries@[j as int].0@ == entries@[i as int].0@);
                }
            }
            let name = match FieldName::new(key.as_str()) {
                Ok(name) => name,
                Err(e) => return Err(e),
            };
            match &entries[i].1 {
                ConfigValue::Text(text) => match Pattern::new(text.as_str()) {
                    Ok(p) => {
                        fields.push((name, p));
                    },
                    Err(cause) => {
                        return Err(
                            ConfigError::InvalidPattern {
                                field: key.clone(),
                                pattern: text.clone(),
                                cause,
                            },
                        );
                    },
                },
                _ => {
                    return Err(ConfigError::NotText(key.clone()));
                },
            }
        }
        i = i + 1;
    }
    proof {
        match key_index(entries@, reserved@) {
            None => {
                assert forall|a: int| 0 <= a < fields@.len() implies #[trigger] field_from(
                    fields@[a],
                    entries@[a],
                ) by {
                    assert(field_from(fields@[a], entries@[source_index(skip, a)]));
                }
            },
            Some(j) => {
                assert forall|a: int| 0 <= a < j implies #[trigger] field_from(
                    fields@[a],
                    entries@[a],
                ) by {
                    assert(field_from(fields@[a], entries@[source_index(skip, a)]));
                }
                assert forall|a: int| j <= a < fields@.len() implies #[trigger] field_from(
                    fields@[a],
                    entries@[a + 1],
                ) by {
                    assert(field_from(fields@[a], entries@[source_index(skip, a)]));
                }
            },
        }
    }
    Ok(fields)
}


impl Deny {
    /// Builds a deny rule from a table: the entry under `allow` lists the
    /// allow rules, every other entry maps a field name to a pattern.
    pub fn from_value(v: &ConfigValue) -> (r: Result<Deny, ConfigError>)
        ensures
            r.is_ok() == rule_ok(*v, allow_key(), deny_key()),
            r matches Ok(d) ==> deny_from(d, *v),
            r matches Err(e) ==> error_sound(e),
        decreases *v,
    {
        match v {
            ConfigValue::Table(entries) => {
                match check_unique(entries) {
                    Ok(()) => {},
                    Err(e) => return Err(e),
                }
                proof {
                    reveal_strlit("allow");
                }
                let skip = find_key(entries, "allow");
                proof {
                    lemma_key_index(entries@, allow_key());
                }

                let field_regexes = match rule_fields(entries, skip, "allow") {
                    Ok(f) => f,
                    Err(e) => return Err(e),
                };
                let mut allow_rules: Vec<Allow> = Vec::new();
                if let Some(j) = skip {
                    proof {
                        lemma_key_index(entries@, allow_key());
                        assert(entries@[j as int].0@ == allow_key());
                    }
                    match &entries[j].1 {
                        ConfigValue::List(items) => {
                            let mut k: usize = 0;
                            #[verifier::loop_isolation(false)]
                            while k < items.len()
                                invariant
                                    k <= items@.len(),
                                    allow_rules@.len() == k,
                                    forall|m: int| 0 <= m < k ==> allow_from(#[trigger] allow_rules@[m], items@[m]),
                                    forall|m: int| 0 <= m < k ==> rule_ok(#[trigger] items@[m], deny_key(), allow_key()),
                                decreases items@.len() - k,
                            {
                                proof {
                                    assert(decreases_to!(*v => *entries));
                                    assert(decreases_to!(*entries => entries@));
                                    assert(decreases_to!(entries@ => entries@[j as int]));
                                    assert(decreases_to!(entries@[j as int] => entries@[j as int].1));
                                    assert(decreases_to!(entries@[j as int].1 => *items));
                                    assert(decreases_to!(*items => items@));
                                    assert(decreases_to!(items@ => items@[k as int]));
                                }
                                match Allow::from_value(&items[k]) {
                                    Ok(a) => allow_rules.push(a),
                                    Err(e) => return Err(e),
                                }
                                k = k + 1;
                            }
                            proof {
                                assert forall|i: int|
                                    0 <= i < entries@.len() && #[trigger] entries@[i].0@ == allow_key() implies (
                                    entries@[i].1 matches ConfigValue::List(its) && forall|m: int|
                                        0 <= m < its@.len() ==> rule_ok(#[trigger] its@[m], deny_key(), allow_key())) by {
                                    if i != j as int {
                                        assert(entries@[i].0@ != entries@[j as int].0@);
                                    }
                                }
                            }
                        },
                        _ => return Err(ConfigError::NotAList(entries[j].0.clone())),
                    }
                } else {
                    proof {
                        assert forall|i: int|
                            0 <= i < entries@.len() && #[trigger] entries@[i].0@ == allow_key() implies false by {
                            assert(key_index(entries@, allow_key()) is Some);
                        }
                    }
                }
                Ok(Deny { allow_rules, field_regexes })
            },
            _ => Err(ConfigError::NotATable),
        }
    }
}

impl Allow {
    /// Builds an allow rule from a table: the entry under `deny` lists the
    /// deny rules, every other entry maps a field name to a pattern.
    pub fn from_value(v: &ConfigValue) -> (r: Result<Allow, ConfigError>)
        ensures
            r.is_ok() == rule_ok(*v, deny_key(), allow_key()),
            r matches Ok(a) ==> allow_from(a, *v),
            r matches Err(e) ==> error_sound(e),
        decreases *v,
    {
        match v {
            ConfigValue::Table(entries) => {
                match check_unique(entries) {
                    Ok(()) => {},
                    Err(e) => return Err(e),
                }
                proof {
                    reveal_strlit("deny");
                }
                let skip = find_key(entries, "deny");
                proof {
                    lemma_key_index(entries@, deny_key());
                }
                let field_regexes = match rule_fields(entries, skip, "deny") {
                    Ok(f) => f,
                    Err(e) => return Err(e),
                };
                let mut deny_rules: Vec<Deny> = Vec::new();
                if let Some(j) = skip {
                    proof {
                        lemma_key_index(entries@, deny_key());
                        assert(entries@[j as int].0@ == deny_key());
                    }
                    match &entries[j].1 {
                        ConfigValue::List(items) => {
                            let mut k: usize = 0;
                            #[verifier::loop_isolation(false)]
                            while k < items.len()
                                invariant
                                    k <= items@.len(),
                                    deny_rules@.len() == k,
                                    forall|m: int| 0 <= m < k ==> deny_from(#[trigger] deny_rules@[m], items@[m]),
                                    forall|m: int| 0 <= m < k ==> rule_ok(#[trigger] items@[m], allow_key(), deny_key()),
                                decreases items@.len() - k,
                            {
                                proof {
                                    assert(decreases_to!(*v => *entries));
                                    assert(decreases_to!(*entries => entries@));
                                    assert(decreases_to!(entries@ => entries@[j as int]));
                                    assert(decreases_to!(entries@[j as int] => entries@[j as int].1));
                                    assert(decreases_to!(entries@[j as int].1 => *items));
                                    assert(decreases_to!(*items => items@));
                                    assert(decreases_to!(items@ => items@[k as int]));
                                }
                                match Deny::from_value(&items[k]) {
                                    Ok(d) => deny_rules.push(d),
                                    Err(e) => return Err(e),
                                }
                                k = k + 1;
                            }
                            proof {
                                assert forall|i: int|
                                    0 <= i < entries@.len() && #[trigger] entries@[i].0@ == deny_key() implies (
                                    entries@[i].1 matches ConfigValue::List(its) && forall|m: int|
                                        0 <= m < its@.len() ==> rule_ok(#[trigger] its@[m], allow_key(), deny_key())) by {
                                    if i != j as int {
                                        assert(entries@[i].0@ != entries@[j as int].0@);
                                    }
                                }
                            }
                        },
                        _ => return Err(ConfigError::NotAList(entries[j].0.clone())),
                    }
                } else {
                    proof {
                        assert forall|i: int|
                            0 <= i < entries@.len() && #[trigger] entries@[i].0@ == deny_key() implies false by {
                            assert(key_index(entries@, deny_key()) is Some);
                        }
                    }
                }
                Ok(Allow { deny_rules, field_regexes })
            },
            _ => Err(ConfigError::NotATable),
        }
    }
}


/// `v` describes a valid rule set: a table whose `match` entry, if any, lists
/// valid deny rules. Other entries are ignored.
pub open spec fn config_ok(v: ConfigValue) -> bool {
    match v {
        ConfigValue::Table(entries) => keys_unique(entries@) && match key_index(entries@, match_key()) {
            None => true,
            Some(j) => entries@[j].1 matches ConfigValue::List(items) && forall|k: int|
                0 <= k < items@.len() ==> rule_ok(#[trigger] items@[k], allow_key(), deny_key()),
        },
        _ => false,
    }
}

/// The rule set `c` was built from the table `v`.
pub open spec fn config_from(c: Config, v: ConfigValue) -> bool {
    match v {
        ConfigValue::Table(entries) => match key_index(entries@, match_key()) {
            None => c.matchers@.len() == 0,
            Some(j) => entries@[j].1 matches ConfigValue::List(items) && c.matchers@.len()
                == items@.len() && forall|k: int|
                0 <= k < items@.len() ==> deny_from(#[trigger] c.matchers@[k], items@[k]),
        },
        _ => false,
    }
}

impl Config {
    /// Builds the rule set from a parsed document: the deny rules listed under
    /// `match`, none when that key is missing.
    pub fn from_value(v: &ConfigValue) -> (r: Result<Config, ConfigError>)
        ensures
            r.is_ok() == config_ok(*v),
            r matches Ok(c) ==> config_from(c, *v),
            r matches Err(e) ==> error_sound(e),
    {
        match v {
            ConfigValue::Table(entries) => {
                match check_unique(entries) {
                    Ok(()) => {},
                    Err(e) => return Err(e),
                }
                proof {
                    reveal_strlit("match");
                }
                let at = find_key(entries, "match");
                proof {
                    lemma_key_index(entries@, match_key());
                }
                let mut matchers: Vec<Deny> = Vec::new();
                if let Some(j) = at {
                    match &entries[j].1 {
                        ConfigValue::List(items) => {
                            let mut k: usize = 0;
                            #[verifier::loop_isolation(false)]
                            while k < items.len()
                                invariant
                                    k <= items@.len(),
                                    matchers@.len() == k,
                                    forall|m: int| 0 <= m < k ==> deny_from(#[trigger] matchers@[m], items@[m]),
                                    forall|m: int| 0 <= m < k ==> rule_ok(#[trigger] items@[m], allow_key(), deny_key()),
                                decreases items@.len() - k,
                            {
                                match Deny::from_value(&items[k]) {
                                    Ok(d) => matchers.push(d),
                                    Err(e) => return Err(e),
                                }
                                k = k + 1;
                            }
                        },
                        _ => return Err(ConfigError::NotAList(entries[j].0.clone())),
                    }
                }
                Ok(Config { matchers })
            },
            _ => Err(ConfigError::NotATable),
        }
    }
}


/// Same field names and pattern texts, in the same order.
pub open spec fn fields_same(a: Seq<(FieldName, Pattern)>, b: Seq<(FieldName, Pattern)>) -> bool {
    a.len() == b.len() && forall|i: int|
        0 <= i < a.len() ==> (#[trigger] a[i]).0@ == b[i].0@ && a[i].1@ == b[i].1@
}

/// The two deny rules are structurally equal.
pub open spec fn deny_same(a: Deny, b: Deny) -> bool
    decreases a,
{
    fields_same(a.field_regexes@, b.field_regexes@) && a.allow_rules@.len() == b.allow_rules@.len()
        && forall|k: int|
        0 <= k < a.allow_rules@.len() ==> allow_same(#[trigger] a.allow_rules@[k], b.allow_rules@[k])
}

/// The two allow rules are structurally equal.
pub open spec fn allow_same(a: Allow, b: Allow) -> bool
    decreases a,
{
    fields_same(a.field_regexes@, b.field_regexes@) && a.deny_rules@.len() == b.deny_rules@.len()
        && forall|k: int|
        0 <= k < a.deny_rules@.len() ==> deny_same(#[trigger] a.deny_rules@[k], b.deny_rules@[k])
}

/// The two rule sets are structurally equal.
pub open spec fn config_same(a: Config, b: Config) -> bool {
    a.matchers@.len() == b.matchers@.len() && forall|k: int|
        0 <= k < a.matchers@.len() ==> deny_same(#[trigger] a.matchers@[k], b.matchers@[k])
}

proof fn lemma_fields_from_same(
    a: Seq<(FieldName, Pattern)>,
    b: Seq<(FieldName, Pattern)>,
    entries: Seq<(String, ConfigValue)>,
    skip: Option<int>,
)
    requires
        fields_from(a, entries, skip),
        fields_from(b, entries, skip),
    ensures
        fields_same(a, b),
{
    assert forall|i: int| 0 <= i < a.len() implies (#[trigger] a[i]).0@ == b[i].0@ && a[i].1@ == b[i].1@ by {
        match skip {
            Some(j) => {
                if i < j {
                    assert(field_from(a[i], entries[i]) && field_from(b[i], entries[i]));
                } else {
                    assert(field_from(a[i], entries[i + 1]) && field_from(b[i], entries[i + 1]));
                }
            },
            None => {
                assert(field_from(a[i], entries[i]) && field_from(b[i], entries[i]));
            },
        }
    }
}

proof fn lemma_deny_from_same(a: Deny, b: Deny, v: ConfigValue)
    requires
        deny_from(a, v),
        deny_from(b, v),
    ensures
        deny_same(a, b),
    decreases v,
{
    if let ConfigValue::Table(entries) = v {
        let idx = key_index(entries@, allow_key());
        lemma_fields_from_same(a.field_regexes@, b.field_regexes@, entries@, idx);
        if let Some(j) = idx {
            if let ConfigValue::List(items) = entries@[j].1 {
                assert forall|k: int| 0 <= k < a.allow_rules@.len() implies allow_same(
                    #[trigger] a.allow_rules@[k],
                    b.allow_rules@[k],
                ) by {
                    lemma_key_index(entries@, allow_key());
                    assert(decreases_to!(v => entries));
                    assert(decreases_to!(entries => entries@));
                    assert(decreases_to!(entries@ => entries@[j]));
                    assert(decreases_to!(entries@[j] => entries@[j].1));
                    assert(decreases_to!(entries@[j].1 => items));
                    assert(decreases_to!(items => items@));
                    assert(decreases_to!(items@ => items@[k]));
                    lemma_allow_from_same(a.allow_rules@[k], b.allow_rules@[k], items@[k]);
                }
            }
        }
    }
}

proof fn lemma_allow_from_same(a: Allow, b: Allow, v: ConfigValue)
    requires
        allow_from(a, v),
        allow_from(b, v),
    ensures
        allow_same(a, b),
    decreases v,
{
    if let ConfigValue::Table(entries) = v {
        let idx = key_index(entries@, deny_key());
        lemma_fields_from_same(a.field_regexes@, b.field_regexes@, entries@, idx);
        if let Some(j) = idx {
            if let ConfigValue::List(items) = entries@[j].1 {
                assert forall|k: int| 0 <= k < a.deny_rules@.len() implies deny_same(
                    #[trigger] a.deny_rules@[k],
                    b.deny_rules@[k],
                ) by {
                    lemma_key_index(entries@, deny_key());
                    assert(decreases_to!(v => entries));
                    assert(decreases_to!(entries => entries@));
                    assert(decreases_to!(entries@ => entries@[j]));
                    assert(decreases_to!(entries@[j] => entries@[j].1));
                    assert(decreases_to!(entries@[j].1 => items));
                    assert(decreases_to!(items => items@));
                    assert(decreases_to!(items@ => items@[k]));
                    lemma_deny_from_same(a.deny_rules@[k], b.deny_rules@[k], items@[k]);
                }
            }
        }
    }
}

/// Two rule sets built from the same document are structurally equal: the
/// rule set depends on the parsed document alone, not on the text format it
/// was written in.
pub proof fn lemma_same_document_same_rules(a: Config, b: Config, v: ConfigValue)
    requires
        config_from(a, v),
        config_from(b, v),
    ensures
        config_same(a, b),
{
    if let ConfigValue::Table(entries) = v {
        if let Some(j) = key_index(entries@, match_key()) {
            if let ConfigValue::List(items) = entries@[j].1 {
                assert forall|k: int| 0 <= k < a.matchers@.len() implies deny_same(
                    #[trigger] a.matchers@[k],
                    b.matchers@[k],
                ) by {
                    lemma_deny_from_same(a.matchers@[k], b.matchers@[k], items@[k]);
                }
            }
        }
    }
}

} // verus!
