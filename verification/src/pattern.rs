//! The optional filter pattern of a usage query: a regular expression
//! compiled once and then matched against grouping keys. The regex
//! engine is outside the library; compilation success and the matching
//! relation are functions of the texts alone, so they carry names that
//! the aggregation contracts build on.
use vstd::prelude::*;

use crate::TwtError;

verus! {

/// Whether `pat` is a valid regular expression: compilation success
/// depends on the pattern text alone.
pub uninterp spec fn regex_valid(pat: Seq<char>) -> bool;

/// Whether the regular expression `pat` matches somewhere inside
/// `text`: the matching relation depends on the two texts alone.
pub uninterp spec fn regex_match(pat: Seq<char>, text: Seq<char>) -> bool;

#[verifier::external_type_specification]
#[verifier::external_body]
pub struct ExRegex(regex::Regex);

/// A compiled filter pattern. The `re` field always holds the compiled
/// form of `source`: the fields are private and only `compile` builds a
/// value.
pub(crate) struct Pattern {
    source: String,
    re: regex::Regex,
}

impl View for Pattern {
    type V = Seq<char>;

    closed spec fn view(&self) -> Seq<char> {
        self.source@
    }
}

impl Pattern {
    /// Relies on `regex::Regex::new`: it succeeds exactly on the texts
    /// that are valid regular expressions.
    #[verifier::external_body]
    pub(crate) fn compile(pat: &str) -> (r: Result<Pattern, TwtError>)
        ensures
            match r {
                Ok(p) => regex_valid(pat@) && p@ == pat@,
                Err(e) => !regex_valid(pat@) && e == TwtError::BadPattern,
            },
    {
        match regex::Regex::new(pat) {
            Ok(re) => Ok(Pattern { source: pat.to_string(), re }),
            Err(_) => Err(TwtError::BadPattern),
        }
    }

    /// Relies on `regex::Regex::is_match` of the compiled form of
    /// `source`: whether it matches depends on the pattern and the
    /// haystack texts alone.
    #[verifier::external_body]
    pub(crate) fn is_match(&self, text: &str) -> (r: bool)
        ensures
            r == regex_match(self@, text@),
    {
        self.re.is_match(text)
    }
}

} // verus!
