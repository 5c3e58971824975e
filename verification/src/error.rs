//! The ways in which a split can fail.

use vstd::prelude::*;

verus! {

/// Why the operating system refused an operation.
#[derive(Debug, Clone, Copy, PartialEq, Eq, Structural)]
pub enum IoErrorKind {
    /// The file does not exist.
    NotFound,
    /// The file may not be opened as asked.
    PermissionDenied,
    /// Any other failure.
    Other,
}

/// The operation that failed, and on which file.
#[derive(Debug, Clone, Copy, PartialEq, Eq, Structural)]
pub enum IoStep {
    /// Opening the input.
    OpenInput,
    /// Reading a line of the input.
    ReadInput,
    /// Creating the part with this index.
    CreateOutput { index: usize },
    /// Writing to the part with this index.
    WriteOutput { index: usize },
}

/// Why a split did not complete.
#[derive(Debug, Clone, Copy, PartialEq, Eq, Structural)]
pub enum SplitError {
    /// The configured number of lines per part is zero.
    ZeroLinesPerFile,
    /// An operation on a file failed; nothing was retried.
    Io { step: IoStep, kind: IoErrorKind },
}

} // verus!
