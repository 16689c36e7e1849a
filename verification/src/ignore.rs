//! The user-supplied ignore pattern, compiled and matched by the regex crate.

use vstd::prelude::*;

verus! {

/// Whether the regex crate accepts `pattern` as a regular expression
/// (within its default size limit); a property of the pattern text alone.
pub uninterp spec fn regex_valid(pattern: Seq<char>) -> bool;

/// Whether the regular expression `pattern` matches anywhere in `text`;
/// a function of the pattern and the text alone.
pub uninterp spec fn regex_matches(pattern: Seq<char>, text: Seq<char>) -> bool;

#[verifier::external_type_specification]
#[verifier::external_body]
pub struct ExRegex(regex::Regex);

/// A compiled ignore pattern, kept beside its source text.
pub struct Matcher {
    pattern: String,
    regex: regex::Regex,
}

impl Matcher {
    /// The pattern this matcher was compiled from.
    pub closed spec fn pattern_spec(&self) -> Seq<char> {
        self.pattern@
    }

    /// Relies on regex::Regex::new: compilation succeeds exactly when the
    /// pattern is a well-formed regular expression, which depends on the
    /// pattern text alone. The matcher keeps the compiled regex beside the
    /// text it was compiled from; this is the type's only constructor.
    #[verifier::external_body]
    pub fn new(pattern: &str) -> (r: Option<Matcher>)
        ensures
            r is Some <==> regex_valid(pattern@),
            r matches Some(m) ==> m.pattern_spec() == pattern@,
    {
        match regex::Regex::new(pattern) {
            Ok(regex) => Some(Matcher { pattern: pattern.to_string(), regex }),
            Err(_) => None,
        }
    }

    /// Relies on regex::Regex::is_match: whether the pattern matches anywhere
    /// in `text`, a function of the compiled pattern and the text alone.
    #[verifier::external_body]
    pub fn is_match(&self, text: &str) -> (r: bool)
        ensures
            r == regex_matches(self.pattern_spec(), text@),
    {
        self.regex.is_match(text)
    }
}

} // verus!
