//! Byte-oriented regular expressions, compiled with the `regex` crate.

use vstd::prelude::*;

verus! {

#[verifier::external_type_specification]
#[verifier::external_body]
pub struct ExRegex(regex::bytes::Regex);

#[verifier::external_type_specification]
#[verifier::external_body]
pub struct ExRegexError(regex::Error);

/// Whether `pattern` is accepted by `regex::bytes::Regex::new`.
pub uninterp spec fn regex_compiles(pattern: Seq<char>) -> bool;

/// Whether the compiled form of `pattern` matches somewhere in `haystack`.
pub uninterp spec fn regex_is_match(pattern: Seq<char>, haystack: Seq<u8>) -> bool;

/// Relies on `regex::bytes::Regex::new`: whether it succeeds depends on the
/// pattern text alone (its syntax and the default size limit).
#[verifier::external_body]
fn compile(source: &str) -> (r: Result<regex::bytes::Regex, regex::Error>)
    ensures
        r.is_ok() == regex_compiles(source@),
{
    regex::bytes::Regex::new(source)
}

/// A regular expression together with the text it was compiled from.
///
/// The compiled regex is always the result of compiling `source`: both
/// fields are private and only `Pattern::new` builds a value.
#[derive(Debug)]
pub struct Pattern {
    source: String,
    regex: regex::bytes::Regex,
}

impl Pattern {
    /// The text of the regular expression.
    pub closed spec fn view(&self) -> Seq<char> {
        self.source@
    }

    /// Compiles `source`; fails with the regex crate's error when the text is
    /// not a valid expression.
    pub fn new(source: &str) -> (r: Result<Pattern, regex::Error>)
        ensures
            r.is_ok() == regex_compiles(source@),
            r matches Ok(p) ==> p@ == source@,
    {
        match compile(source) {
            Ok(regex) => Ok(Pattern { source: source.to_owned(), regex }),
            Err(e) => Err(e),
        }
    }

    /// The text of the regular expression.
    pub fn as_str(&self) -> (r: &str)
        ensures
            r@ == self@,
    {
        self.source.as_str()
    }

    /// Whether the expression matches somewhere in `haystack`.
    pub fn is_match(&self, haystack: &[u8]) -> (r: bool)
        ensures
            r == regex_is_match(self@, haystack@),
    {
        regex_matches(self, haystack)
    }
}

/// Relies on `regex::bytes::Regex::is_match`, applied to the regex that
/// `Pattern::new` compiled from `p.source`.
#[verifier::external_body]
fn regex_matches(p: &Pattern, haystack: &[u8]) -> (r: bool)
    ensures
        r == regex_is_match(p.source@, haystack@),
{
    p.regex.is_match(haystack)
}

} // verus!
