//! Failures, and which of them a caller may recover from.
use crate::text::{begins, copy, starts_with};
use vstd::prelude::*;

verus! {

/// What went wrong.
#[derive(Clone, Copy, PartialEq, Eq, Structural, Debug)]
pub enum ErrorKind {
    /// A stylesheet of the package does not parse.
    AuthoredStylesheetParse,
    /// A script does not parse.
    SourceParse,
    /// A script parses, but its names cannot be resolved.
    SourceAnalysis,
    /// A source file is of no supported kind.
    UnsupportedSource,
    /// A source map does not decode.
    SourceMap,
    /// What was asked for is no request.
    InvalidRequest,
    /// A result cannot be written.
    Serialization,
    /// What was made of the files is not sound.
    Planning,
}

/// A failure.
#[derive(Debug)]
pub struct MigrationError {
    pub kind: ErrorKind,
    pub message: String,
}

/// The model of a [`MigrationError`].
pub struct ErrorModel {
    pub kind: ErrorKind,
    pub message: Seq<char>,
}

impl View for MigrationError {
    type V = ErrorModel;

    open spec fn view(&self) -> ErrorModel {
        ErrorModel { kind: self.kind, message: self.message@ }
    }
}

/// A failure of planning itself.
pub open spec fn unsound(message: Seq<char>) -> ErrorModel {
    ErrorModel { kind: ErrorKind::Planning, message }
}

/// Skipping one package recovers from the failure: it lies in a file of the
/// package, not in what was made of it.
pub open spec fn recoverable(kind: ErrorKind) -> bool {
    match kind {
        ErrorKind::AuthoredStylesheetParse => true,
        ErrorKind::SourceParse => true,
        ErrorKind::SourceAnalysis => true,
        ErrorKind::UnsupportedSource => true,
        _ => false,
    }
}

impl MigrationError {
    /// A failure of this kind.
    pub fn new(kind: ErrorKind, message: String) -> (result: MigrationError)
        ensures
            result@ == (ErrorModel { kind, message: message@ }),
    {
        MigrationError { kind, message }
    }

    /// An equal failure.
    pub fn copy(&self) -> (result: MigrationError)
        ensures
            result@ == self@,
    {
        MigrationError { kind: self.kind, message: copy(self.message.as_str()) }
    }

    /// Whether skipping one package recovers from the failure.
    pub fn is_recoverable(&self) -> (result: bool)
        ensures
            result == recoverable(self@.kind),
    {
        match self.kind {
            ErrorKind::AuthoredStylesheetParse => true,
            ErrorKind::SourceParse => true,
            ErrorKind::SourceAnalysis => true,
            ErrorKind::UnsupportedSource => true,
            _ => false,
        }
    }
}

/// What introduces the message of a failure that skipping one package
/// recovers from.
pub open spec fn recoverable_mark() -> Seq<char> {
    "TW_MIGRATE_RECOVERABLE_INPUT:"@
}

/// The message reads like that of a failure in a file of the package.
pub open spec fn reads_recoverable(error: Seq<char>) -> bool {
    ||| !begins(error, "Failed to parse edited CSS"@) && begins(error, "Failed to parse "@)
    ||| begins(error, "Failed to analyze "@)
    ||| begins(error, "Unsupported source file "@)
}

/// Whether a message reads like that of a failure in a file of the package, for
/// callers that know no more than the message.
pub fn is_recoverable_input_error(error: &str) -> (result: bool)
    ensures
        result == reads_recoverable(error@),
{
    (!starts_with(error, "Failed to parse edited CSS") && starts_with(error, "Failed to parse ")) || starts_with(
        error,
        "Failed to analyze ",
    ) || starts_with(error, "Unsupported source file ")
}

/// The reason that callers see. Only endpoints that work on whole packages mark
/// recoverable failures.
pub open spec fn error_reason(error: ErrorModel, prefix_recoverable: bool) -> Seq<char> {
    if prefix_recoverable && recoverable(error.kind) {
        recoverable_mark() + error.message
    } else {
        error.message
    }
}

/// The reason that callers see.
pub fn native_error_reason(error: &MigrationError, prefix_recoverable: bool) -> (result: String)
    ensures
        result@ == error_reason(error@, prefix_recoverable),
{
    if prefix_recoverable && error.is_recoverable() {
        let mut reason = "TW_MIGRATE_RECOVERABLE_INPUT:".to_owned();
        reason.append(error.message.as_str());
        reason
    } else {
        copy(error.message.as_str())
    }
}

} // verus!
