//! How an operation ends. A reference to a submission that does not exist
//! is an error: the operation is not carried out at all. A rule of the
//! protocol that stands against an operation is a rejection: the operation
//! ends in good order, the state is as it was, and the caller learns why.

use vstd::prelude::*;

verus! {

/// Why an operation was turned down.
#[derive(Clone, Copy, Debug, PartialEq, Eq, Structural)]
pub enum Rejection {
    /// The caller is not the one for whom the operation is reserved.
    Unauthorized,
    /// No referee is registered under the name.
    ReviewerNotFound,
    /// A commitment came after the voting had ended.
    PhaseError,
    /// The referee has committed a vote on this submission before.
    DuplicateCommit,
    /// The number of committed votes is not the quorum.
    QuorumUnmet,
    /// The voting has not ended yet.
    NotReady,
    /// The referee has committed nothing that could be revealed.
    CommitNotFound,
    /// What was revealed is not what was committed.
    CommitMismatch,
}

/// How an operation on an existing submission ended.
#[derive(Clone, Copy, Debug, PartialEq, Eq, Structural)]
pub enum Outcome {
    /// The operation took effect.
    Applied,
    /// The operation was turned down, and nothing has changed.
    Rejected(Rejection),
}

/// Why an operation could not be carried out.
#[derive(Clone, Copy, Debug, PartialEq, Eq, Structural)]
pub enum Error {
    /// No submission has the given id.
    NotFound,
}

} // verus!
