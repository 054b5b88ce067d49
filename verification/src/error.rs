//! The error taxonomy: malformed path strings, malformed source text
//! bubbled up from a format parser, absent values, type mismatches during
//! coercion, and a source failing during a build.

use vstd::prelude::*;

use crate::path::ParseError;

verus! {

/// Everything that can go wrong while building or reading a configuration.
#[derive(Debug, PartialEq, Eq)]
pub enum ConfigError {
    /// A path string the grammar does not admit.
    PathParse { cause: ParseError },
    /// A format parser rejected source text; the message is the parser's.
    Foreign { uri: Option<String>, cause: String },
    /// A path resolved to nothing on read.
    NotFound(String),
    /// A value exists but has the wrong shape; carries the failing path.
    Type { path: String, expected: String, got: String },
    /// A source failed while the build collected it; names the source.
    BuildAbort { source: String, cause: Box<ConfigError> },
    /// Any other failure, described in words.
    Message(String),
}

impl ConfigError {
    /// Wraps a path parse failure.
    pub fn path_parse(cause: ParseError) -> (r: ConfigError)
        ensures
            r == (ConfigError::PathParse { cause }),
    {
        ConfigError::PathParse { cause }
    }
}

} // verus!
