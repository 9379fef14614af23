//! Caller-supplied matching rules: a compiled regular expression together
//! with the pattern text it came from, so that contracts can speak of what
//! the rule matches.
use vstd::prelude::*;

verus! {

#[verifier::external_type_specification]
#[verifier::external_body]
pub struct ExRegex(regex::Regex);

#[verifier::external_type_specification]
#[verifier::external_body]
pub struct ExRegexError(regex::Error);

/// Whether `regex::Regex::new` accepts `pat`; a function of the pattern
/// text alone.
pub uninterp spec fn regex_ok(pat: Seq<char>) -> bool;

/// Whether the rule compiled from `pat` matches somewhere inside `text`;
/// a function of pattern and text alone.
pub uninterp spec fn regex_match(pat: Seq<char>, text: Seq<char>) -> bool;

/// A compiled matching rule. The private fields keep the compiled regex
/// together with the exact pattern it was compiled from; the only
/// constructor is `compile`, so the two cannot drift apart.
pub struct CompiledPattern {
    regex: regex::Regex,
    pattern: String,
}

impl CompiledPattern {
    /// The pattern text this rule was compiled from.
    pub closed spec fn pat(&self) -> Seq<char> {
        self.pattern@
    }

    /// Relies on `regex::Regex::new`: compilation succeeds exactly on the
    /// patterns the regex grammar accepts, deterministically in the
    /// pattern text.
    #[verifier::external_body]
    pub fn compile(pat: &str) -> (r: Result<CompiledPattern, regex::Error>)
        ensures
            r is Ok <==> regex_ok(pat@),
            r matches Ok(p) ==> p.pat() == pat@,
    {
        match regex::Regex::new(pat) {
            Ok(regex) => Ok(CompiledPattern { regex, pattern: pat.to_string() }),
            Err(e) => Err(e),
        }
    }

    /// Relies on `regex::Regex::is_match`: whether this rule matches
    /// somewhere inside `text`, deterministically in pattern and text.
    #[verifier::external_body]
    pub fn is_match(&self, text: &str) -> (r: bool)
        ensures
            r == regex_match(self.pat(), text@),
    {
        self.regex.is_match(text)
    }
}

} // verus!
