//! The pattern that tells the containers of a compose stack's service by
//! name: the service's container name, optionally followed by `-` and a
//! replica number.

use regex::Regex;
use vstd::prelude::*;
use vstd::string::StringExecFns;

verus! {

#[verifier::external_type_specification]
#[verifier::external_body]
pub struct ExRegex(Regex);

/// What `regex::Regex::new` gives for `pattern`: `None` when it compiles
/// (valid regex syntax within the default size limits), else the `Display`
/// text of its error. This depends on the pattern alone.
pub uninterp spec fn regex_new_error(pattern: Seq<char>) -> Option<Seq<char>>;

/// The source text of a compiled regex: what `regex::Regex::as_str` gives
/// back, the pattern the regex was built from.
pub uninterp spec fn regex_source(re: Regex) -> Seq<char>;

/// Calls `regex::Regex::new`, giving its error as its `Display` text. A
/// regex it builds keeps `pattern` as its source (`Regex::as_str`); what
/// the regex matches is not described here.
#[verifier::external_body]
fn regex_new(pattern: &str) -> (r: Result<Regex, String>)
    ensures
        match regex_new_error(pattern@) {
            None => r is Ok,
            Some(t) => r matches Err(e) && e@ == t,
        },
        r matches Ok(re) ==> regex_source(re) == pattern@,
{
    Regex::new(pattern).map_err(|e| e.to_string())
}

/// The pattern for the containers of a compose service whose container is
/// named `container_name` (taken as regex syntax, not escaped).
pub open spec fn container_match_pattern(container_name: Seq<char>) -> Seq<char> {
    "^"@ + container_name + "-?[0-9]*$"@
}

/// The pattern holds the container name exactly as given, case and all:
/// a `^`, then the characters of `container_name` unchanged, then
/// `-?[0-9]*$`.
pub proof fn lemma_pattern_keeps_container_name(container_name: Seq<char>)
    ensures
        container_match_pattern(container_name).len() == container_name.len() + 10,
        container_match_pattern(container_name)[0] == '^',
        container_match_pattern(container_name).subrange(1, (container_name.len() + 1) as int)
            == container_name,
        container_match_pattern(container_name).skip((container_name.len() + 1) as int) == "-?[0-9]*$"@,
{
    reveal_strlit("^");
    reveal_strlit("-?[0-9]*$");
    let p = container_match_pattern(container_name);
    assert(p.subrange(1, (container_name.len() + 1) as int) =~= container_name);
    assert(p.skip((container_name.len() + 1) as int) =~= "-?[0-9]*$"@);
}

/// A container name that does not make a valid pattern.
#[derive(Debug)]
pub struct ContainerRegexError {
    /// The pattern that failed to compile.
    pub pattern: String,
    /// The text of the `regex` error.
    pub cause: String,
}

impl ContainerRegexError {
    /// What failed, without why.
    pub fn summary(&self) -> (m: String)
        ensures
            m@ == "failed to construct valid regex from "@ + self.pattern@,
    {
        let mut m = String::from_str("failed to construct valid regex from ");
        m.append(self.pattern.as_str());
        m
    }

    /// The error's full message: what failed, then why.
    pub fn message(&self) -> (m: String)
        ensures
            m@ == "failed to construct valid regex from "@ + self.pattern@ + ": "@ + self.cause@,
    {
        let mut m = self.summary();
        m.append(": ");
        m.append(self.cause.as_str());
        m
    }
}

/// The pattern `^{container_name}-?[0-9]*$`.
pub fn container_match_pattern_of(container_name: &str) -> (p: String)
    ensures
        p@ == container_match_pattern(container_name@),
{
    let mut p = String::from_str("^");
    p.append(container_name);
    p.append("-?[0-9]*$");
    p
}

/// The regex that matches the containers of a compose service: its
/// container name, optionally followed by `-` and digits. The regex is
/// compiled from that pattern; it fails exactly when that pattern does not
/// compile, and then names the pattern and the `regex` error.
pub fn compose_container_match_regex(container_name: &str) -> (r: Result<Regex, ContainerRegexError>)
    ensures
        match regex_new_error(container_match_pattern(container_name@)) {
            None => r is Ok,
            Some(t) => r matches Err(e) && e.pattern@ == container_match_pattern(container_name@)
                && e.cause@ == t,
        },
        r matches Ok(re) ==> regex_source(re) == container_match_pattern(container_name@),
{
    let pattern = container_match_pattern_of(container_name);
    match regex_new(pattern.as_str()) {
        Ok(re) => Ok(re),
        Err(cause) => Err(ContainerRegexError { pattern, cause }),
    }
}

} // verus!
