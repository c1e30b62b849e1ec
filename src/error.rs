//! The failures that the engine reports.

use vstd::prelude::*;

verus! {

/// Why an operation could not be carried out.
#[derive(Clone, Copy, Debug, PartialEq, Eq, Structural)]
pub enum PitError {
    /// A required object, ref or file is missing.
    NotFound,
    /// An object does not have the expected line format.
    Corrupted,
    /// A required input (the commit message) is blank.
    EmptyInput,
    /// The staged files change nothing.
    NothingToCommit,
    /// The branch to merge does not exist.
    BranchNotFound,
    /// One of the two branches has no commit yet.
    EmptyBranch,
    /// The branch to merge holds nothing that the current one lacks.
    NothingToMerge,
    /// The two histories diverge: no fast-forward is possible.
    NoSimpleMerge,
}

} // verus!
