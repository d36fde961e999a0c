//! Failures of the collectors.
use vstd::prelude::*;

verus! {

/// Why a memory summary could not be turned into a record.
#[derive(Debug)]
pub enum MemError {
    /// The summary could not be opened or read.
    SourceUnavailable,
    /// A line of the system summary holds fewer than two tokens.
    BadFileFormat,
    /// A recognized line holds a value that is not an unsigned integer; the
    /// offending line is kept.
    InvalidNumber(Vec<u8>),
    /// The command name of the process could not be resolved.
    ProcessLookupFailed,
}

/// The mathematical content of a `MemError`.
pub enum Failure {
    SourceUnavailable,
    BadFileFormat,
    InvalidNumber(Seq<u8>),
    ProcessLookupFailed,
}

impl View for MemError {
    type V = Failure;

    open spec fn view(&self) -> Failure {
        match self {
            MemError::SourceUnavailable => Failure::SourceUnavailable,
            MemError::BadFileFormat => Failure::BadFileFormat,
            MemError::InvalidNumber(l) => Failure::InvalidNumber(l@),
            MemError::ProcessLookupFailed => Failure::ProcessLookupFailed,
        }
    }
}

/// A result with its error seen through its view.
pub open spec fn outcome<T>(r: Result<T, MemError>) -> Result<T, Failure> {
    match r {
        Ok(x) => Ok(x),
        Err(e) => Err(e@),
    }
}

} // verus!
