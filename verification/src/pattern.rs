//! Regular expressions, as the `regex` crate understands them.

use regex::Regex;
use vstd::prelude::*;

verus! {

/// Whether `regex::Regex::new` accepts `pattern`: whether it is a regular
/// expression in that crate's syntax, small enough for its default size
/// limit.
pub uninterp spec fn pattern_compiles(pattern: Seq<char>) -> bool;

/// Whether the regular expression `pattern` has a match anywhere in
/// `text`, as `regex::Regex::is_match` finds it. It says nothing of a
/// pattern that does not compile.
pub uninterp spec fn pattern_matches(pattern: Seq<char>, text: Seq<char>) -> bool;

/// Calls `regex::Regex::new` and tells whether it gave a regular
/// expression or an error. Trusted: that the outcome depends on the
/// pattern alone.
#[verifier::external_body]
fn regex_compiles(pattern: &str) -> (ok: bool)
    ensures
        ok == pattern_compiles(pattern@),
{
    Regex::new(pattern).is_ok()
}

/// Calls `regex::Regex::is_match` on the expression that
/// `regex::Regex::new` makes of `pattern`. Trusted: that the answer
/// depends on the pattern and the text alone.
#[verifier::external_body]
fn regex_is_match(pattern: &str, text: &str) -> (found: bool)
    requires
        pattern_compiles(pattern@),
    ensures
        found == pattern_matches(pattern@, text@),
{
    match Regex::new(pattern) {
        Ok(regex) => regex.is_match(text),
        Err(_) => false,
    }
}

/// A regular expression that is known to compile.
pub struct Pattern {
    source: String,
}

impl View for Pattern {
    type V = Seq<char>;

    /// The text of the expression.
    closed spec fn view(&self) -> Seq<char> {
        self.source@
    }
}

impl Pattern {
    #[verifier::type_invariant]
    spec fn compiles(self) -> bool {
        pattern_compiles(self.source@)
    }

    /// Accepts `source` as a pattern if it compiles.
    pub fn new(source: String) -> (pattern: Option<Pattern>)
        ensures
            match pattern {
                Some(p) => pattern_compiles(source@) && p@ == source@,
                None => !pattern_compiles(source@),
            },
    {
        if regex_compiles(source.as_str()) {
            Some(Pattern { source })
        } else {
            None
        }
    }

    /// Tells whether the pattern has a match anywhere in `text`.
    pub fn is_match(&self, text: &str) -> (found: bool)
        ensures
            found == pattern_matches(self@, text@),
            pattern_compiles(self@),
    {
        proof {
            use_type_invariant(self);
        }
        regex_is_match(self.source.as_str(), text)
    }

    /// The text of the expression.
    pub fn as_str(&self) -> (source: &str)
        ensures
            source@ == self@,
    {
        self.source.as_str()
    }
}

/// Tests `text` against `pattern`; `None` where the pattern does not
/// compile.
pub fn matches_pattern(pattern: &str, text: &str) -> (found: Option<bool>)
    ensures
        found == if pattern_compiles(pattern@) {
            Some(pattern_matches(pattern@, text@))
        } else {
            None
        },
{
    if regex_compiles(pattern) {
        Some(regex_is_match(pattern, text))
    } else {
        None
    }
}

} // verus!
