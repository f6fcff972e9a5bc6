//! The library's error type.
//!
//! Every failure is detected at the boundary, before a comparison begins:
//! a comparison itself cannot fail.  Each variant carries the underlying
//! message as plain text.

use vstd::prelude::*;
use vstd::string::StringExecFns;

verus! {

/// An error raised while loading inputs or building comparison options.
#[derive(Debug, Clone, PartialEq)]
pub enum JsonDiffError {
    /// The input text was not well-formed JSON.
    JsonParseError(String),
    /// A file could not be read.
    IoError(String),
    /// A path was not acceptable.
    InvalidPath(String),
    /// A regex pattern did not compile.
    RegexError(String),
}

impl JsonDiffError {
    /// The rendered message of this error.
    pub open spec fn spec_message(self) -> Seq<char> {
        match self {
            JsonDiffError::JsonParseError(s) => "Failed to parse JSON: "@ + s@,
            JsonDiffError::IoError(s) => "Failed to read file: "@ + s@,
            JsonDiffError::InvalidPath(s) => "Invalid JSON path: "@ + s@,
            JsonDiffError::RegexError(s) => "Invalid regex pattern: "@ + s@,
        }
    }

    /// Renders the error as one line of text.
    pub fn message(&self) -> (r: String)
        ensures
            r@ == self.spec_message(),
    {
        let (prefix, payload): (&'static str, &String) = match self {
            JsonDiffError::JsonParseError(s) => ("Failed to parse JSON: ", s),
            JsonDiffError::IoError(s) => ("Failed to read file: ", s),
            JsonDiffError::InvalidPath(s) => ("Invalid JSON path: ", s),
            JsonDiffError::RegexError(s) => ("Invalid regex pattern: ", s),
        };
        let mut out = String::from_str(prefix);
        out.append(payload.as_str());
        out
    }
}

} // verus!
