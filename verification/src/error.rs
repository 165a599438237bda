//! The ways in which the pipeline refuses its input.

use vstd::prelude::*;

verus! {

/// Why a stage of the pipeline gave no result.
#[derive(Debug, Clone, Copy, PartialEq, Eq, Structural)]
pub enum PipelineError {
    /// An event's category has no weight in the table.
    UnknownCategory,
    /// An event names a user that the registry does not hold.
    UnknownUser,
    /// An event names a repository that the registry does not hold.
    UnknownRepo,
    /// An accumulated score does not fit in 64 bits.
    ScoreOverflow,
    /// An entry of a matrix points past the last row of the matrix it is
    /// joined with.
    IndexOutOfRange,
    /// A list of names holds the same name twice.
    DuplicateName,
    /// A list of names is too long for its positions to be 32-bit indices.
    TooManyNames,
}

} // verus!
