//! What can go wrong, and how it is told.

use crate::paths::opt_text;
use crate::text::owned;
use vstd::prelude::*;
use vstd::string::*;

verus! {

/// What stops a request.
#[derive(Debug, Clone, PartialEq, Eq)]
pub enum SearchError {
    /// The path filter is not a glob pattern.
    InvalidGlob { pattern: String, cause: String },
    /// Of the path filter, though it is a glob pattern, no matcher can be built.
    GlobSet { cause: String },
    /// The query is not a regular expression.
    InvalidRegex { query: String, cause: String },
    /// The mirror is not there.
    SourceMissing(String),
    /// The file to open is not there.
    FileMissing(String),
    /// No document answers to the name.
    DocumentNotFound(String),
}

/// The message of an error.
pub open spec fn error_message(error: SearchError) -> Seq<char> {
    match error {
        SearchError::InvalidGlob { pattern, cause: _ } => "invalid glob: "@ + pattern@,
        SearchError::GlobSet { cause } => cause@,
        SearchError::InvalidRegex { query, cause: _ } => "invalid regex query: "@ + query@,
        SearchError::SourceMissing(path) => "source directory does not exist: "@ + path@,
        SearchError::FileMissing(path) => "file does not exist: "@ + path@,
        SearchError::DocumentNotFound(target) => "document not found: "@ + target@,
    }
}

/// What an error was caused by, where its message does not tell.
pub open spec fn error_cause(error: SearchError) -> Option<Seq<char>> {
    match error {
        SearchError::InvalidGlob { pattern: _, cause } => Some(cause@),
        SearchError::InvalidRegex { query: _, cause } => Some(cause@),
        _ => None,
    }
}

impl SearchError {
    /// What the error was caused by, where its message does not tell.
    pub fn cause(&self) -> (r: Option<String>)
        ensures
            opt_text(r) == error_cause(*self),
    {
        match self {
            SearchError::InvalidGlob { pattern: _, cause } => Some(cause.clone()),
            SearchError::InvalidRegex { query: _, cause } => Some(cause.clone()),
            _ => None,
        }
    }

    /// The message of the error.
    pub fn message(&self) -> (r: String)
        ensures
            r@ == error_message(*self),
    {
        match self {
            SearchError::InvalidGlob { pattern, cause: _ } => owned("invalid glob: ").concat(
                pattern.as_str(),
            ),
            SearchError::GlobSet { cause } => cause.clone(),
            SearchError::InvalidRegex { query, cause: _ } => owned("invalid regex query: ").concat(
                query.as_str(),
            ),
            SearchError::SourceMissing(path) => owned("source directory does not exist: ").concat(
                path.as_str(),
            ),
            SearchError::FileMissing(path) => owned("file does not exist: ").concat(path.as_str()),
            SearchError::DocumentNotFound(target) => owned("document not found: ").concat(
                target.as_str(),
            ),
        }
    }
}

/// The message of an error names what it is about, and the cause of a refused pattern is
/// told, either by itself or as the message.
pub proof fn law_errors_tell_what_is_wrong(error: SearchError)
    ensures
        error matches SearchError::InvalidGlob { pattern, cause } ==> pattern@.is_suffix_of(
            error_message(error),
        ) && error_cause(error) == Some(cause@),
        error matches SearchError::InvalidRegex { query, cause } ==> query@.is_suffix_of(
            error_message(error),
        ) && error_cause(error) == Some(cause@),
        error matches SearchError::GlobSet { cause } ==> error_message(error) == cause@
            && error_cause(error) is None,
        error matches SearchError::SourceMissing(path) ==> path@.is_suffix_of(error_message(error)),
        error matches SearchError::FileMissing(path) ==> path@.is_suffix_of(error_message(error)),
        error matches SearchError::DocumentNotFound(name) ==> name@.is_suffix_of(
            error_message(error),
        ),
{
    let m = error_message(error);
    match error {
        SearchError::InvalidGlob { pattern, cause } => {
            assert(pattern@ =~= m.subrange(m.len() - pattern@.len(), m.len() as int));
        },
        SearchError::InvalidRegex { query, cause } => {
            assert(query@ =~= m.subrange(m.len() - query@.len(), m.len() as int));
        },
        SearchError::GlobSet { cause } => {},
        SearchError::SourceMissing(path) => {
            assert(path@ =~= m.subrange(m.len() - path@.len(), m.len() as int));
        },
        SearchError::FileMissing(path) => {
            assert(path@ =~= m.subrange(m.len() - path@.len(), m.len() as int));
        },
        SearchError::DocumentNotFound(name) => {
            assert(name@ =~= m.subrange(m.len() - name@.len(), m.len() as int));
        },
    }
}

} // verus!
