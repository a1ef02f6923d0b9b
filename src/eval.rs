//! Evaluation of the rule tree against one record.
//!
//! Fields are fetched lazily from an outside record source. Evaluation is a
//! step function: given the fields fetched so far, it either names the next
//! field to fetch or gives the verdict. The caller fetches that field, records
//! it in the cache, and asks again.

use vstd::prelude::*;
use crate::pattern::{regex_is_match, Pattern};
use crate::rules::{allow_same, config_same, deny_same, fields_same, Allow, Config, Deny, FieldName};

verus! {

/// The fields of a record: absent, or present with their raw bytes.
pub type Record = spec_fn(Seq<char>) -> Option<Seq<u8>>;

/// The fields fetched so far for one record.
pub type CacheView = Map<Seq<char>, Option<Seq<u8>>>;

/// What evaluation yields on a partial cache.
pub enum Progress {
    /// The field of this name must be fetched before evaluation can go on.
    Pending(Seq<char>),
    /// Evaluation is finished.
    Done(bool),
}

/// Whether the patterns from index `i` on all match: stops at the first
/// field that is not cached, absent or not matched.
pub open spec fn fields_eval(fields: Seq<(FieldName, Pattern)>, c: CacheView, i: int) -> Progress
    decreases fields.len() - i,
{
    if i < 0 || i >= fields.len() {
        Progress::Done(true)
    } else {
        let name = fields[i].0@;
        if !c.contains_key(name) {
            Progress::Pending(name)
        } else {
            match c[name] {
                None => Progress::Done(false),
                Some(bytes) => if regex_is_match(fields[i].1@, bytes) {
                    fields_eval(fields, c, i + 1)
                } else {
                    Progress::Done(false)
                },
            }
        }
    }
}

/// Whether the deny rule matches: all patterns match and no allow rule does.
pub open spec fn deny_eval(d: Deny, c: CacheView) -> Progress
    decreases d, 0int,
{
    match fields_eval(d.field_regexes@, c, 0) {
        Progress::Done(true) => match allows_eval(d.allow_rules@, c, 0) {
            Progress::Done(any) => Progress::Done(!any),
            p => p,
        },
        p => p,
    }
}

/// Whether the allow rule matches: all patterns match and no deny rule does.
pub open spec fn allow_eval(a: Allow, c: CacheView) -> Progress
    decreases a, 0int,
{
    match fields_eval(a.field_regexes@, c, 0) {
        Progress::Done(true) => match denies_eval(a.deny_rules@, c, 0) {
            Progress::Done(any) => Progress::Done(!any),
            p => p,
        },
        p => p,
    }
}

/// Whether one of the allow rules from index `i` on matches, in order.
pub open spec fn allows_eval(s: Seq<Allow>, c: CacheView, i: int) -> Progress
    decreases s, s.len() - i,
{
    if i < 0 || i >= s.len() {
        Progress::Done(false)
    } else {
        match allow_eval(s[i], c) {
            Progress::Done(false) => allows_eval(s, c, i + 1),
            p => p,
        }
    }
}

/// Whether one of the deny rules from index `i` on matches, in order.
pub open spec fn denies_eval(s: Seq<Deny>, c: CacheView, i: int) -> Progress
    decreases s, s.len() - i,
{
    if i < 0 || i >= s.len() {
        Progress::Done(false)
    } else {
        match deny_eval(s[i], c) {
            Progress::Done(false) => denies_eval(s, c, i + 1),
            p => p,
        }
    }
}


pub open spec fn bytes_view(v: Option<Vec<u8>>) -> Option<Seq<u8>> {
    match v {
        Some(b) => Some(b@),
        None => None,
    }
}

/// The map that a list of cache entries stands for.
pub open spec fn entries_map(s: Seq<(String, Option<Vec<u8>>)>) -> CacheView
    decreases s.len(),
{
    if s.len() == 0 {
        Map::empty()
    } else {
        entries_map(s.drop_last()).insert(s.last().0@, bytes_view(s.last().1))
    }
}

proof fn lemma_entries_map(s: Seq<(String, Option<Vec<u8>>)>, k: Seq<char>)
    requires
        forall|a: int, b: int|
            0 <= a < s.len() && 0 <= b < s.len() && a != b ==> #[trigger] s[a].0@ != #[trigger] s[b].0@,
    ensures
        entries_map(s).contains_key(k) <==> exists|a: int| 0 <= a < s.len() && #[trigger] s[a].0@ == k,
        forall|a: int| 0 <= a < s.len() && #[trigger] s[a].0@ == k ==> entries_map(s)[k] == bytes_view(s[a].1),
    decreases s.len(),
{
    if s.len() > 0 {
        let t = s.drop_last();
        lemma_entries_map(t, k);
        if exists|a: int| 0 <= a < t.len() && #[trigger] t[a].0@ == k {
            let a = choose|a: int| 0 <= a < t.len() && #[trigger] t[a].0@ == k;
            assert(s[a].0@ == k);
        }
        if exists|a: int| 0 <= a < s.len() && #[trigger] s[a].0@ == k {
            let a = choose|a: int| 0 <= a < s.len() && #[trigger] s[a].0@ == k;
            if a < s.len() - 1 {
                assert(t[a].0@ == k);
            }
        }
        assert forall|a: int| 0 <= a < s.len() && #[trigger] s[a].0@ == k implies entries_map(s)[k]
            == bytes_view(s[a].1) by {
            if a < s.len() - 1 {
                assert(t[a].0@ == k);
                assert(s[s.len() - 1].0@ != s[a].0@);
            }
        }
    }
}

/// The fields of one record fetched so far: each name at most once, with the
/// field's bytes or the fact that the record lacks it.
pub struct FieldCache {
    entries: Vec<(String, Option<Vec<u8>>)>,
}

impl FieldCache {
    pub closed spec fn view(&self) -> CacheView {
        entries_map(self.entries@)
    }

    pub closed spec fn wf(&self) -> bool {
        forall|a: int, b: int|
            0 <= a < self.entries@.len() && 0 <= b < self.entries@.len() && a != b
                ==> #[trigger] self.entries@[a].0@ != #[trigger] self.entries@[b].0@
    }

    pub fn new() -> (r: FieldCache)
        ensures
            r.wf(),
            r@ == Map::<Seq<char>, Option<Seq<u8>>>::empty(),
    {
        FieldCache { entries: Vec::new() }
    }

    /// The cached field of this name, if it was fetched.
    pub fn get(&self, name: &str) -> (r: Option<&Option<Vec<u8>>>)
        requires
            self.wf(),
        ensures
            r is Some == self@.contains_key(name@),
            r matches Some(v) ==> self@[name@] == bytes_view(*v),
    {
        proof {
            lemma_entries_map(self.entries@, name@);
        }
        let n = self.entries.len();
        let mut i: usize = 0;
        #[verifier::loop_isolation(false)]
        while i < n
            invariant
                n == self.entries@.len(),
                i <= n,
                forall|a: int| 0 <= a < i ==> #[trigger] self.entries@[a].0@ != name@,
            decreases n - i,
        {
            if crate::rules::same_text(self.entries[i].0.as_str(), name) {
                return Some(&self.entries[i].1);
            }
            i = i + 1;
        }
        None
    }

    /// Records a field that was not fetched before.
    pub fn insert(&mut self, name: String, value: Option<Vec<u8>>)
        requires
            old(self).wf(),
            !old(self)@.contains_key(name@),
        ensures
            final(self).wf(),
            final(self)@ == old(self)@.insert(name@, bytes_view(value)),
    {
        proof {
            lemma_entries_map(self.entries@, name@);
        }
        let ghost before = self.entries@;
        self.entries.push((name, value));
        assert(self.entries@.drop_last() == before);
    }
}


/// What one evaluation step asks of the caller.
#[derive(Debug, PartialEq, Eq)]
pub enum Step {
    /// Fetch the field of this name from the record, record it in the cache,
    /// and evaluate again.
    Fetch(String),
    /// The verdict for the record.
    Verdict(bool),
}

impl Step {
    pub open spec fn view(&self) -> Progress {
        match self {
            Step::Fetch(name) => Progress::Pending(name@),
            Step::Verdict(b) => Progress::Done(*b),
        }
    }
}

/// Checks the patterns in order against the cached fields.
fn fields_step(fields: &Vec<(FieldName, Pattern)>, cache: &FieldCache) -> (r: Step)
    requires
        cache.wf(),
    ensures
        r@ == fields_eval(fields@, cache@, 0),
{
    let n = fields.len();
    let mut i: usize = 0;
    while i < n
        invariant
            n == fields@.len(),
            i <= n,
            cache.wf(),
            fields_eval(fields@, cache@, 0) == fields_eval(fields@, cache@, i as int),
        decreases n - i,
    {
        let name = &fields[i].0;
        match cache.get(name.as_str()) {
            None => {
                return Step::Fetch(name.as_str().to_owned());
            },
            Some(None) => {
                return Step::Verdict(false);
            },
            Some(Some(bytes)) => {
                if !fields[i].1.is_match(bytes.as_slice()) {
                    return Step::Verdict(false);
                }
            },
        }
        i = i + 1;
    }
    Step::Verdict(true)
}

impl Deny {
    /// One evaluation step of this rule: it denies when all its patterns
    /// match and none of its allow rules does.
    pub fn denies(&self, cache: &FieldCache) -> (r: Step)
        requires
            cache.wf(),
        ensures
            r@ == deny_eval(*self, cache@),
        decreases *self,
    {
        match fields_step(&self.field_regexes, cache) {
            Step::Verdict(true) => {},
            other => {
                return other;
            },
        }
        let n = self.allow_rules.len();
        let mut k: usize = 0;
        #[verifier::loop_isolation(false)]
        while k < n
            invariant
                n == self.allow_rules@.len(),
                k <= n,
                allows_eval(self.allow_rules@, cache@, 0) == allows_eval(self.allow_rules@, cache@, k as int),
            decreases n - k,
        {
            proof {
                assert(decreases_to!(*self => self.allow_rules));
                assert(decreases_to!(self.allow_rules => self.allow_rules@));
                assert(decreases_to!(self.allow_rules@ => self.allow_rules@[k as int]));
            }
            match self.allow_rules[k].allows(cache) {
                Step::Verdict(false) => {},
                Step::Verdict(true) => {
                    return Step::Verdict(false);
                },
                Step::Fetch(name) => {
                    return Step::Fetch(name);
                },
            }
            k = k + 1;
        }
        Step::Verdict(true)
    }
}

impl Allow {
    /// One evaluation step of this rule: it allows when all its patterns
    /// match and none of its deny rules does.
    pub fn allows(&self, cache: &FieldCache) -> (r: Step)
        requires
            cache.wf(),
        ensures
            r@ == allow_eval(*self, cache@),
        decreases *self,
    {
        match fields_step(&self.field_regexes, cache) {
            Step::Verdict(true) => {},
            other => {
                return other;
            },
        }
        let n = self.deny_rules.len();
        let mut k: usize = 0;
        #[verifier::loop_isolation(false)]
        while k < n
            invariant
                n == self.deny_rules@.len(),
                k <= n,
                denies_eval(self.deny_rules@, cache@, 0) == denies_eval(self.deny_rules@, cache@, k as int),
            decreases n - k,
        {
            proof {
                assert(decreases_to!(*self => self.deny_rules));
                assert(decreases_to!(self.deny_rules => self.deny_rules@));
                assert(decreases_to!(self.deny_rules@ => self.deny_rules@[k as int]));
            }
            match self.deny_rules[k].denies(cache) {
                Step::Verdict(false) => {},
                Step::Verdict(true) => {
                    return Step::Verdict(false);
                },
                Step::Fetch(name) => {
                    return Step::Fetch(name);
                },
            }
            k = k + 1;
        }
        Step::Verdict(true)
    }
}

impl Config {
    /// One evaluation step of the rule set: the record raises an alert when
    /// one of the matchers denies it; later matchers are not looked at.
    pub fn evaluate(&self, cache: &FieldCache) -> (r: Step)
        requires
            cache.wf(),
        ensures
            r@ == denies_eval(self.matchers@, cache@, 0),
            r matches Step::Fetch(name) ==> !cache@.contains_key(name@) && config_names(
                *self,
            ).contains(name@),
    {
        proof {
            lemma_fetches_named_fields(*self, cache@);
            let c = cache@;
            let rec = |k: Seq<char>| if c.contains_key(k) { c[k] } else { None };
            lemma_verdict_of_record(*self, c, rec);
        }
        let n = self.matchers.len();
        let mut k: usize = 0;
        #[verifier::loop_isolation(false)]
        while k < n
            invariant
                n == self.matchers@.len(),
                k <= n,
                cache.wf(),
                denies_eval(self.matchers@, cache@, 0) == denies_eval(self.matchers@, cache@, k as int),
            decreases n - k,
        {
            match self.matchers[k].denies(cache) {
                Step::Verdict(false) => {},
                other => {
                    return other;
                },
            }
            k = k + 1;
        }
        Step::Verdict(false)
    }
}


/// The cache of a record in which every field has been fetched.
pub open spec fn full_cache(rec: Record) -> CacheView {
    Map::new(|k: Seq<char>| true, |k: Seq<char>| rec(k))
}

/// Every cached field holds what the record holds.
pub open spec fn cache_agrees(c: CacheView, rec: Record) -> bool {
    forall|k: Seq<char>| #[trigger] c.contains_key(k) ==> c[k] == rec(k)
}

/// The deny rule matches the record.
pub open spec fn deny_matches(d: Deny, rec: Record) -> bool {
    deny_eval(d, full_cache(rec)) == Progress::Done(true)
}

/// The allow rule matches the record.
pub open spec fn allow_matches(a: Allow, rec: Record) -> bool {
    allow_eval(a, full_cache(rec)) == Progress::Done(true)
}

/// The record raises an alert under the rule set.
pub open spec fn config_matches(cfg: Config, rec: Record) -> bool {
    denies_eval(cfg.matchers@, full_cache(rec), 0) == Progress::Done(true)
}

/// What a partial evaluation yields is what the full one yields, or names a
/// field not cached yet.
pub open spec fn settles_as(p: Progress, full: Progress, c: CacheView) -> bool {
    match p {
        Progress::Done(b) => full == Progress::Done(b),
        Progress::Pending(name) => !c.contains_key(name),
    }
}

proof fn lemma_fields_cache(f: Seq<(FieldName, Pattern)>, c: CacheView, rec: Record, i: int)
    requires
        cache_agrees(c, rec),
    ensures
        settles_as(fields_eval(f, c, i), fields_eval(f, full_cache(rec), i), c),
    decreases f.len() - i,
{
    if 0 <= i < f.len() {
        lemma_fields_cache(f, c, rec, i + 1);
    }
}

proof fn lemma_deny_cache(d: Deny, c: CacheView, rec: Record)
    requires
        cache_agrees(c, rec),
    ensures
        settles_as(deny_eval(d, c), deny_eval(d, full_cache(rec)), c),
    decreases d, 0int,
{
    lemma_fields_cache(d.field_regexes@, c, rec, 0);
    lemma_allows_cache(d.allow_rules@, c, rec, 0);
}

proof fn lemma_allow_cache(a: Allow, c: CacheView, rec: Record)
    requires
        cache_agrees(c, rec),
    ensures
        settles_as(allow_eval(a, c), allow_eval(a, full_cache(rec)), c),
    decreases a, 0int,
{
    lemma_fields_cache(a.field_regexes@, c, rec, 0);
    lemma_denies_cache(a.deny_rules@, c, rec, 0);
}

proof fn lemma_allows_cache(s: Seq<Allow>, c: CacheView, rec: Record, i: int)
    requires
        cache_agrees(c, rec),
    ensures
        settles_as(allows_eval(s, c, i), allows_eval(s, full_cache(rec), i), c),
    decreases s, s.len() - i,
{
    if 0 <= i < s.len() {
        lemma_allow_cache(s[i], c, rec);
        lemma_allows_cache(s, c, rec, i + 1);
    }
}

proof fn lemma_denies_cache(s: Seq<Deny>, c: CacheView, rec: Record, i: int)
    requires
        cache_agrees(c, rec),
    ensures
        settles_as(denies_eval(s, c, i), denies_eval(s, full_cache(rec), i), c),
    decreases s, s.len() - i,
{
    if 0 <= i < s.len() {
        lemma_deny_cache(s[i], c, rec);
        lemma_denies_cache(s, c, rec, i + 1);
    }
}

/// The verdict depends on the record's field values alone: whichever fields
/// were cached, and in whatever order they were fetched, a finished
/// evaluation gives the verdict of the whole record, and an unfinished one
/// asks only for a field that is not cached yet.
pub proof fn lemma_verdict_of_record(cfg: Config, c: CacheView, rec: Record)
    requires
        cache_agrees(c, rec),
    ensures
        denies_eval(cfg.matchers@, c, 0) matches Progress::Done(b) ==> b == config_matches(cfg, rec),
        denies_eval(cfg.matchers@, c, 0) matches Progress::Pending(name) ==> !c.contains_key(name),
{
    lemma_denies_cache(cfg.matchers@, c, rec, 0);
}

/// A deny rule without patterns and without allow rules matches every record.
pub proof fn lemma_empty_deny_matches(d: Deny, rec: Record)
    requires
        d.field_regexes@.len() == 0,
        d.allow_rules@.len() == 0,
    ensures
        deny_matches(d, rec),
{
}

/// An allow rule without patterns and without deny rules matches every record.
pub proof fn lemma_empty_allow_matches(a: Allow, rec: Record)
    requires
        a.field_regexes@.len() == 0,
        a.deny_rules@.len() == 0,
    ensures
        allow_matches(a, rec),
{
}

proof fn lemma_fields_absent(f: Seq<(FieldName, Pattern)>, c: CacheView, i: int, j: int)
    requires
        0 <= i <= j < f.len(),
        c.contains_key(f[j].0@),
        c[f[j].0@] is None,
    ensures
        fields_eval(f, c, i) != Progress::Done(true),
    decreases j - i,
{
    if i < j {
        lemma_fields_absent(f, c, i + 1, j);
    }
}

/// A deny rule one of whose fields the record lacks does not match it,
/// whatever its other patterns and its allow rules.
pub proof fn lemma_absent_field_no_match(d: Deny, rec: Record, j: int)
    requires
        0 <= j < d.field_regexes@.len(),
        rec(d.field_regexes@[j].0@) is None,
    ensures
        !deny_matches(d, rec),
{
    lemma_fields_absent(d.field_regexes@, full_cache(rec), 0, j);
}

proof fn lemma_allows_hit(s: Seq<Allow>, c: CacheView, i: int, j: int)
    requires
        0 <= i <= j < s.len(),
        allow_eval(s[j], c) == Progress::Done(true),
    ensures
        allows_eval(s, c, i) != Progress::Done(false),
    decreases j - i,
{
    if i < j {
        lemma_allows_hit(s, c, i + 1, j);
    }
}

/// A deny rule one of whose allow rules matches the record does not match
/// it, even where all its own patterns match.
pub proof fn lemma_allow_overrides(d: Deny, rec: Record, j: int)
    requires
        0 <= j < d.allow_rules@.len(),
        allow_matches(d.allow_rules@[j], rec),
    ensures
        !deny_matches(d, rec),
{
    lemma_allows_hit(d.allow_rules@, full_cache(rec), 0, j);
}


/// The record has the field of this entry, and its pattern matches the bytes.
pub open spec fn field_matches(f: (FieldName, Pattern), rec: Record) -> bool {
    rec(f.0@) matches Some(bytes) && regex_is_match(f.1@, bytes)
}

proof fn lemma_fields_full(f: Seq<(FieldName, Pattern)>, rec: Record, i: int)
    requires
        0 <= i <= f.len(),
    ensures
        fields_eval(f, full_cache(rec), i) == Progress::Done(
            forall|m: int| i <= m < f.len() ==> #[trigger] field_matches(f[m], rec),
        ),
    decreases f.len() - i,
{
    if i < f.len() {
        lemma_fields_full(f, rec, i + 1);
        if !field_matches(f[i], rec) {
            assert(!(forall|m: int| i <= m < f.len() ==> #[trigger] field_matches(f[m], rec)));
        } else {
            assert((forall|m: int| i <= m < f.len() ==> #[trigger] field_matches(f[m], rec)) <==> (
            forall|m: int| i + 1 <= m < f.len() ==> #[trigger] field_matches(f[m], rec)));
        }
    }
}

proof fn lemma_allows_full(s: Seq<Allow>, rec: Record, i: int)
    requires
        0 <= i <= s.len(),
    ensures
        allows_eval(s, full_cache(rec), i) == Progress::Done(
            exists|m: int| i <= m < s.len() && #[trigger] allow_matches(s[m], rec),
        ),
    decreases s.len() - i,
{
    if i < s.len() {
        lemma_allows_full(s, rec, i + 1);
        lemma_allow_cache(s[i], full_cache(rec), rec);
        if allow_matches(s[i], rec) {
            assert(exists|m: int| i <= m < s.len() && #[trigger] allow_matches(s[m], rec));
        } else {
            assert((exists|m: int| i <= m < s.len() && #[trigger] allow_matches(s[m], rec)) <==> (
            exists|m: int| i + 1 <= m < s.len() && #[trigger] allow_matches(s[m], rec)));
        }
    }
}

proof fn lemma_denies_full(s: Seq<Deny>, rec: Record, i: int)
    requires
        0 <= i <= s.len(),
    ensures
        denies_eval(s, full_cache(rec), i) == Progress::Done(
            exists|m: int| i <= m < s.len() && #[trigger] deny_matches(s[m], rec),
        ),
    decreases s.len() - i,
{
    if i < s.len() {
        lemma_denies_full(s, rec, i + 1);
        lemma_deny_cache(s[i], full_cache(rec), rec);
        if deny_matches(s[i], rec) {
            assert(exists|m: int| i <= m < s.len() && #[trigger] deny_matches(s[m], rec));
        } else {
            assert((exists|m: int| i <= m < s.len() && #[trigger] deny_matches(s[m], rec)) <==> (
            exists|m: int| i + 1 <= m < s.len() && #[trigger] deny_matches(s[m], rec)));
        }
    }
}

/// A deny rule matches a record exactly when the record has every field of
/// its patterns, every pattern matches, and none of its allow rules matches.
pub proof fn lemma_deny_matches_iff(d: Deny, rec: Record)
    ensures
        deny_matches(d, rec) <==> (forall|i: int|
            0 <= i < d.field_regexes@.len() ==> #[trigger] field_matches(d.field_regexes@[i], rec))
            && !(exists|j: int|
            0 <= j < d.allow_rules@.len() && #[trigger] allow_matches(d.allow_rules@[j], rec)),
{
    lemma_fields_full(d.field_regexes@, rec, 0);
    lemma_allows_full(d.allow_rules@, rec, 0);
}

/// An allow rule matches a record exactly when the record has every field of
/// its patterns, every pattern matches, and none of its deny rules matches.
pub proof fn lemma_allow_matches_iff(a: Allow, rec: Record)
    ensures
        allow_matches(a, rec) <==> (forall|i: int|
            0 <= i < a.field_regexes@.len() ==> #[trigger] field_matches(a.field_regexes@[i], rec))
            && !(exists|j: int|
            0 <= j < a.deny_rules@.len() && #[trigger] deny_matches(a.deny_rules@[j], rec)),
{
    lemma_fields_full(a.field_regexes@, rec, 0);
    lemma_denies_full(a.deny_rules@, rec, 0);
}

/// A record raises an alert exactly when one of the top-level deny rules
/// matches it.
pub proof fn lemma_config_matches_iff(cfg: Config, rec: Record)
    ensures
        config_matches(cfg, rec) <==> exists|j: int|
            0 <= j < cfg.matchers@.len() && #[trigger] deny_matches(cfg.matchers@[j], rec),
{
    lemma_denies_full(cfg.matchers@, rec, 0);
}


proof fn lemma_fields_same_eval(a: Seq<(FieldName, Pattern)>, b: Seq<(FieldName, Pattern)>, c: CacheView, i: int)
    requires
        fields_same(a, b),
    ensures
        fields_eval(a, c, i) == fields_eval(b, c, i),
    decreases a.len() - i,
{
    if 0 <= i < a.len() {
        assert(a[i].0@ == b[i].0@ && a[i].1@ == b[i].1@);
        lemma_fields_same_eval(a, b, c, i + 1);
    }
}

proof fn lemma_deny_same_eval(a: Deny, b: Deny, c: CacheView)
    requires
        deny_same(a, b),
    ensures
        deny_eval(a, c) == deny_eval(b, c),
    decreases a, 0int,
{
    lemma_fields_same_eval(a.field_regexes@, b.field_regexes@, c, 0);
    lemma_allows_same_eval(a.allow_rules@, b.allow_rules@, c, 0);
}

proof fn lemma_allow_same_eval(a: Allow, b: Allow, c: CacheView)
    requires
        allow_same(a, b),
    ensures
        allow_eval(a, c) == allow_eval(b, c),
    decreases a, 0int,
{
    lemma_fields_same_eval(a.field_regexes@, b.field_regexes@, c, 0);
    lemma_denies_same_eval(a.deny_rules@, b.deny_rules@, c, 0);
}

proof fn lemma_allows_same_eval(s: Seq<Allow>, t: Seq<Allow>, c: CacheView, i: int)
    requires
        s.len() == t.len(),
        forall|k: int| 0 <= k < s.len() ==> allow_same(#[trigger] s[k], t[k]),
    ensures
        allows_eval(s, c, i) == allows_eval(t, c, i),
    decreases s, s.len() - i,
{
    if 0 <= i < s.len() {
        lemma_allow_same_eval(s[i], t[i], c);
        lemma_allows_same_eval(s, t, c, i + 1);
    }
}

proof fn lemma_denies_same_eval(s: Seq<Deny>, t: Seq<Deny>, c: CacheView, i: int)
    requires
        s.len() == t.len(),
        forall|k: int| 0 <= k < s.len() ==> deny_same(#[trigger] s[k], t[k]),
    ensures
        denies_eval(s, c, i) == denies_eval(t, c, i),
    decreases s, s.len() - i,
{
    if 0 <= i < s.len() {
        lemma_deny_same_eval(s[i], t[i], c);
        lemma_denies_same_eval(s, t, c, i + 1);
    }
}

/// Structurally equal rule sets evaluate alike, step by step, on every cache.
pub proof fn lemma_same_rules_same_steps(a: Config, b: Config, c: CacheView)
    requires
        config_same(a, b),
    ensures
        denies_eval(a.matchers@, c, 0) == denies_eval(b.matchers@, c, 0),
{
    lemma_denies_same_eval(a.matchers@, b.matchers@, c, 0);
}


/// The field names that the patterns mention, in order.
pub open spec fn fields_names(f: Seq<(FieldName, Pattern)>) -> Seq<Seq<char>> {
    f.map_values(|e: (FieldName, Pattern)| e.0@)
}

/// The field names that the deny rule mentions, its descendants included.
pub open spec fn deny_names(d: Deny) -> Seq<Seq<char>>
    decreases d, 0int,
{
    fields_names(d.field_regexes@) + allows_names(d.allow_rules@, 0)
}

/// The field names that the allow rule mentions, its descendants included.
pub open spec fn allow_names(a: Allow) -> Seq<Seq<char>>
    decreases a, 0int,
{
    fields_names(a.field_regexes@) + denies_names(a.deny_rules@, 0)
}

pub open spec fn allows_names(s: Seq<Allow>, i: int) -> Seq<Seq<char>>
    decreases s, s.len() - i,
{
    if i < 0 || i >= s.len() {
        Seq::empty()
    } else {
        allow_names(s[i]) + allows_names(s, i + 1)
    }
}

pub open spec fn denies_names(s: Seq<Deny>, i: int) -> Seq<Seq<char>>
    decreases s, s.len() - i,
{
    if i < 0 || i >= s.len() {
        Seq::empty()
    } else {
        deny_names(s[i]) + denies_names(s, i + 1)
    }
}

/// The field names that the rule set mentions anywhere.
pub open spec fn config_names(cfg: Config) -> Seq<Seq<char>> {
    denies_names(cfg.matchers@, 0)
}

proof fn lemma_concat_contains(a: Seq<Seq<char>>, b: Seq<Seq<char>>, x: Seq<char>)
    ensures
        a.contains(x) ==> (a + b).contains(x),
        b.contains(x) ==> (a + b).contains(x),
{
    if a.contains(x) {
        let i = choose|i: int| 0 <= i < a.len() && a[i] == x;
        assert((a + b)[i] == x);
    }
    if b.contains(x) {
        let i = choose|i: int| 0 <= i < b.len() && b[i] == x;
        assert((a + b)[a.len() + i] == x);
    }
}

/// Names a field that the evaluation asks for, if it asks for one.
pub open spec fn pending_in(p: Progress, names: Seq<Seq<char>>) -> bool {
    p matches Progress::Pending(n) ==> names.contains(n)
}

proof fn lemma_fields_named(f: Seq<(FieldName, Pattern)>, c: CacheView, i: int)
    ensures
        pending_in(fields_eval(f, c, i), fields_names(f)),
    decreases f.len() - i,
{
    if 0 <= i < f.len() {
        lemma_fields_named(f, c, i + 1);
        assert(fields_names(f)[i] == f[i].0@);
    }
}

proof fn lemma_deny_named(d: Deny, c: CacheView)
    ensures
        pending_in(deny_eval(d, c), deny_names(d)),
    decreases d, 0int,
{
    lemma_fields_named(d.field_regexes@, c, 0);
    lemma_allows_named(d.allow_rules@, c, 0);
    if let Progress::Pending(n) = deny_eval(d, c) {
        lemma_concat_contains(fields_names(d.field_regexes@), allows_names(d.allow_rules@, 0), n);
    }
}

proof fn lemma_allow_named(a: Allow, c: CacheView)
    ensures
        pending_in(allow_eval(a, c), allow_names(a)),
    decreases a, 0int,
{
    lemma_fields_named(a.field_regexes@, c, 0);
    lemma_denies_named(a.deny_rules@, c, 0);
    if let Progress::Pending(n) = allow_eval(a, c) {
        lemma_concat_contains(fields_names(a.field_regexes@), denies_names(a.deny_rules@, 0), n);
    }
}

proof fn lemma_allows_named(s: Seq<Allow>, c: CacheView, i: int)
    ensures
        pending_in(allows_eval(s, c, i), allows_names(s, i)),
    decreases s, s.len() - i,
{
    if 0 <= i < s.len() {
        lemma_allow_named(s[i], c);
        lemma_allows_named(s, c, i + 1);
        if let Progress::Pending(n) = allows_eval(s, c, i) {
            lemma_concat_contains(allow_names(s[i]), allows_names(s, i + 1), n);
        }
    }
}

proof fn lemma_denies_named(s: Seq<Deny>, c: CacheView, i: int)
    ensures
        pending_in(denies_eval(s, c, i), denies_names(s, i)),
    decreases s, s.len() - i,
{
    if 0 <= i < s.len() {
        lemma_deny_named(s[i], c);
        lemma_denies_named(s, c, i + 1);
        if let Progress::Pending(n) = denies_eval(s, c, i) {
            lemma_concat_contains(deny_names(s[i]), denies_names(s, i + 1), n);
        }
    }
}

/// Evaluation asks only for fields that the rule set mentions.
pub proof fn lemma_fetches_named_fields(cfg: Config, c: CacheView)
    ensures
        pending_in(denies_eval(cfg.matchers@, c, 0), config_names(cfg)),
{
    lemma_denies_named(cfg.matchers@, c, 0);
}

/// The value of field `k` in a record given as a list of present fields:
/// the first entry of that name, from index `i` on.
pub open spec fn lookup_from(fields: Seq<(String, Vec<u8>)>, k: Seq<char>, i: int) -> Option<Seq<u8>>
    decreases fields.len() - i,
{
    if i < 0 || i >= fields.len() {
        None
    } else if fields[i].0@ == k {
        Some(fields[i].1@)
    } else {
        lookup_from(fields, k, i + 1)
    }
}

/// The record that a list of present fields stands for.
pub open spec fn record_of(fields: Seq<(String, Vec<u8>)>) -> Record {
    |k: Seq<char>| lookup_from(fields, k, 0)
}

fn lookup(fields: &Vec<(String, Vec<u8>)>, name: &str) -> (r: Option<Vec<u8>>)
    ensures
        bytes_view(r) == lookup_from(fields@, name@, 0),
{
    let n = fields.len();
    let mut i: usize = 0;
    while i < n
        invariant
            n == fields@.len(),
            i <= n,
            lookup_from(fields@, name@, 0) == lookup_from(fields@, name@, i as int),
        decreases n - i,
    {
        if crate::rules::same_text(fields[i].0.as_str(), name) {
            return Some(fields[i].1.clone());
        }
        i = i + 1;
    }
    None
}

impl Config {
    /// Evaluates the rule set to a verdict against a record given as the list
    /// of its present fields (the first entry of a name counts), fetching
    /// each field at most once.
    pub fn evaluate_record(&self, fields: &Vec<(String, Vec<u8>)>) -> (r: bool)
        ensures
            r == config_matches(*self, record_of(fields@)),
    {
        let ghost rec = record_of(fields@);
        let ghost names = config_names(*self).to_set();
        proof {
            vstd::seq_lib::seq_to_set_is_finite(config_names(*self));
        }
        let mut cache = FieldCache::new();
        loop
            invariant
                cache.wf(),
                cache_agrees(cache@, rec),
                cache@.dom().finite(),
                cache@.dom().subset_of(names),
                names.finite(),
                rec == record_of(fields@),
                names == config_names(*self).to_set(),
            decreases names.len() - cache@.dom().len(),
        {
            proof {
                lemma_verdict_of_record(*self, cache@, rec);
                lemma_fetches_named_fields(*self, cache@);
                vstd::set_lib::lemma_len_subset(cache@.dom(), names);
            }
            match self.evaluate(&cache) {
                Step::Verdict(v) => {
                    return v;
                },
                Step::Fetch(name) => {
                    let value = lookup(fields, name.as_str());
                    let ghost nm = name@;
                    let ghost before = cache@.dom();
                    assert(config_names(*self).contains(nm));
                    assert(names.contains(nm));
                    cache.insert(name, value);
                    proof {
                        assert(cache@.dom() =~= before.insert(nm));
                        vstd::set_lib::lemma_len_subset(cache@.dom(), names);
                    }
                },
            }
        }
    }
}

} // verus!
