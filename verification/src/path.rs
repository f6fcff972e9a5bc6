//! The path matcher: tests whether an address matches a configured pattern.
//!
//! A pattern is either exact (plain string equality with the address) or a
//! regular expression tested against the full address string.  Regular
//! expression matching is delegated to the `regex` crate; what its verdict
//! is for a given pattern and address is named, not restated, and every
//! contract above speaks through that name.
//!
//! A `JsonPath` keeps the pattern text rather than a compiled matcher: a
//! compiled matcher is opaque to the verifier, so no contract could tie it
//! to the pattern it was built from.  Construction still compiles the
//! pattern once, so that a malformed pattern is rejected up front, and
//! `matches` compiles afresh behind its trusted wrapper.

use vstd::prelude::*;
use vstd::string::StringExecFns;
use crate::error::JsonDiffError;

verus! {

/// Whether `regex::Regex::new` accepts this pattern.  The verdict depends
/// on the pattern alone.
pub uninterp spec fn regex_valid(pattern: Seq<char>) -> bool;

/// Whether the compiled form of `pattern` matches anywhere in `text`, as
/// `regex::Regex::is_match` decides it.  The verdict depends on the pattern
/// and the text alone.
pub uninterp spec fn regex_accepts(pattern: Seq<char>, text: Seq<char>) -> bool;

/// Relies on `regex::Regex::new`: compilation succeeds or fails depending
/// on the pattern alone; on failure the error renders as a message.
#[verifier::external_body]
fn compile_pattern(pattern: &str) -> (r: Result<(), String>)
    ensures
        r is Ok <==> regex_valid(pattern@),
{
    match regex::Regex::new(pattern) {
        Ok(_) => Ok(()),
        Err(e) => Err(e.to_string()),
    }
}

/// Relies on `regex::Regex::new` and `regex::Regex::is_match`: a pattern
/// that compiles yields a matcher whose verdict depends on the pattern and
/// the haystack alone.  The pattern is required to compile, so the error
/// branch below is never taken.
#[verifier::external_body]
fn pattern_is_match(pattern: &str, text: &str) -> (r: bool)
    requires
        regex_valid(pattern@),
    ensures
        r == regex_accepts(pattern@, text@),
{
    match regex::Regex::new(pattern) {
        Ok(re) => re.is_match(text),
        Err(_) => false,
    }
}

/// Mathematical model of a configured path pattern.
pub struct SpecPath {
    /// The exact address this pattern stands for.
    pub path: Seq<char>,
    /// The regex pattern, when matching is by regular expression.
    pub pattern: Option<Seq<char>>,
}

impl SpecPath {
    /// What the pattern matches: the regex verdict when a regex was
    /// configured, plain equality with the stored address otherwise.
    pub open spec fn spec_matches(self, addr: Seq<char>) -> bool {
        match self.pattern {
            Some(p) => regex_accepts(p, addr),
            None => self.path == addr,
        }
    }

    /// A well-formed pattern: any configured regex compiles.
    pub open spec fn wf(self) -> bool {
        self.pattern matches Some(p) ==> regex_valid(p)
    }
}

/// Represents a JSON path for matching elements.
#[derive(Debug, Clone)]
pub struct JsonPath {
    path: String,
    pattern: Option<String>,
}

impl View for JsonPath {
    type V = SpecPath;

    closed spec fn view(&self) -> SpecPath {
        SpecPath {
            path: self.path@,
            pattern: match self.pattern {
                Some(p) => Some(p@),
                None => None,
            },
        }
    }
}

impl JsonPath {
    /// A well-formed pattern: any configured regex compiles.  Constructors
    /// establish this and `matches` relies on it.
    pub open spec fn wf(self) -> bool {
        self@.wf()
    }

    /// Create a new JSON path that matches exactly the given address.
    pub fn new(path: &str) -> (r: Result<Self, JsonDiffError>)
        ensures
            r matches Ok(p) && p.wf() && p@ == (SpecPath { path: path@, pattern: None }),
    {
        Ok(Self { path: String::from_str(path), pattern: None })
    }

    /// Create a JSON path with regex pattern matching.  Fails exactly when
    /// the pattern does not compile.
    pub fn with_regex(path: &str, pattern: &str) -> (r: Result<Self, JsonDiffError>)
        ensures
            regex_valid(pattern@) <==> r is Ok,
            r matches Ok(p) ==> p.wf() && p@ == (SpecPath {
                path: path@,
                pattern: Some(pattern@),
            }),
            r is Err ==> r->Err_0 is RegexError,
    {
        match compile_pattern(pattern) {
            Ok(_) => Ok(
                Self { path: String::from_str(path), pattern: Some(String::from_str(pattern)) },
            ),
            Err(msg) => Err(JsonDiffError::RegexError(msg)),
        }
    }

    /// Check if this path matches the given address string.
    pub fn matches(&self, path: &str) -> (r: bool)
        requires
            self.wf(),
        ensures
            r == self@.spec_matches(path@),
    {
        match &self.pattern {
            Some(p) => pattern_is_match(p.as_str(), path),
            None => crate::strutil::str_eq(self.path.as_str(), path),
        }
    }
}

} // verus!
