//! A compiled regular expression together with the pattern it was compiled
//! from. Values of `NamePattern` are made only by `NamePattern::compile`, so
//! a value's pattern is always the one its regex came from.

use vstd::prelude::*;

verus! {

#[verifier::external_type_specification]
#[verifier::external_body]
pub struct ExRegex(regex::Regex);

#[verifier::external_type_specification]
#[verifier::external_body]
pub struct ExRegexError(regex::Error);

/// Whether `regex::Regex::new` accepts a pattern (its syntax is valid and
/// the compiled program fits the default size limit): a function of the
/// pattern alone.
pub uninterp spec fn regex_compiles(pattern: Seq<char>) -> bool;

/// Whether the regex compiled from `pattern` matches somewhere in `text`
/// (`regex::Regex::is_match`): a function of the pattern and the text alone.
pub uninterp spec fn regex_matches(pattern: Seq<char>, text: Seq<char>) -> bool;

/// A regex and the pattern it was compiled from.
pub(crate) struct NamePattern {
    pattern: String,
    re: regex::Regex,
}

impl View for NamePattern {
    type V = Seq<char>;

    closed spec fn view(&self) -> Seq<char> {
        self.pattern@
    }
}

impl NamePattern {
    /// `regex::Regex::new`: compile `pattern`; it succeeds exactly when the
    /// pattern compiles, and the result holds that pattern.
    #[verifier::external_body]
    pub(crate) fn compile(pattern: &str) -> (r: Result<NamePattern, regex::Error>)
        ensures
            match r {
                Ok(p) => regex_compiles(pattern@) && p@ == pattern@,
                Err(_) => !regex_compiles(pattern@),
            },
    {
        regex::Regex::new(pattern).map(|re| NamePattern { pattern: pattern.to_string(), re })
    }

    /// `regex::Regex::is_match`: whether the compiled pattern matches
    /// somewhere in `text`.
    #[verifier::external_body]
    pub(crate) fn is_match(&self, text: &str) -> (r: bool)
        ensures
            r == regex_matches(self@, text@),
    {
        self.re.is_match(text)
    }
}

/// The `Display` text of a `regex::Error` (what it says is the crate's).
#[verifier::external_body]
pub(crate) fn regex_error_text(e: &regex::Error) -> String {
    e.to_string()
}

} // verus!
