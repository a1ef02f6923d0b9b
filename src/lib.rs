//! Classifies structured log records against a nested deny/allow rule set.
//!
//! - `pattern`: byte-oriented regular expressions, kept with their source text.
//! - `rules`: field names, the mutually nested `Deny` and `Allow` rules, and
//!   their construction from a parsed configuration document.
//! - `eval`: evaluation of a rule set against one record, one field fetch at
//!   a time through a per-record cache, with the laws that it obeys.

pub mod pattern;
pub mod rules;
pub mod eval;
