//! Regular expressions (the `regex` crate) as used to verify candidate lines.
use vstd::prelude::*;

verus! {

#[verifier::external_type_specification]
#[verifier::external_body]
pub struct ExRegex(regex::Regex);

#[verifier::external_type_specification]
#[verifier::external_body]
pub struct ExRegexError(regex::Error);

/// Whether `regex::Regex::new` accepts `pattern` (syntax and size limit).
pub uninterp spec fn regex_compiles(pattern: Seq<char>) -> bool;

/// Whether the regex compiled from `pattern` matches somewhere in `haystack`
/// (`regex::Regex::is_match`).
pub uninterp spec fn regex_is_match(pattern: Seq<char>, haystack: Seq<char>) -> bool;

/// A compiled regular expression together with the pattern it was compiled
/// from. Both fields are set only by `CompiledRegex::compile`.
pub struct CompiledRegex {
    source: String,
    re: regex::Regex,
}

impl CompiledRegex {
    /// The pattern this regex was compiled from.
    pub closed spec fn pattern(&self) -> Seq<char> {
        self.source@
    }

    /// Compiles `pattern` with `regex::Regex::new`. The result is `Ok` exactly
    /// when the pattern compiles; the compiled regex remembers its pattern.
    #[verifier::external_body]
    pub(crate) fn compile(pattern: &str) -> (r: Result<CompiledRegex, regex::Error>)
        ensures
            r is Ok <==> regex_compiles(pattern@),
            r matches Ok(c) ==> c.pattern() == pattern@,
    {
        match regex::Regex::new(pattern) {
            Ok(re) => Ok(CompiledRegex { source: pattern.to_string(), re }),
            Err(e) => Err(e),
        }
    }

    /// `regex::Regex::is_match` of the compiled pattern on `haystack`.
    #[verifier::external_body]
    pub(crate) fn is_match(&self, haystack: &str) -> (r: bool)
        ensures
            r == regex_is_match(self.pattern(), haystack@),
    {
        self.re.is_match(haystack)
    }
}

} // verus!
