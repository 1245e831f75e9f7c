//! Error values surfaced by pool construction and job submission.

use vstd::prelude::*;

verus! {

/// The ways pool construction can fail.
#[derive(Debug)]
pub enum CreationFailure {
    /// A pool of zero workers was requested.
    ZeroSize,
    /// The operating system refused to create a worker thread; `cause`
    /// carries the underlying reason.
    SpawnFailure { cause: String },
}

/// Why constructing a pool failed. Construction errors are returned to the
/// caller, never used to crash the process.
#[derive(Debug)]
pub struct PoolCreationError {
    pub kind: CreationFailure,
}

impl PoolCreationError {
    /// The error for a zero-size request.
    pub fn zero_size() -> (e: PoolCreationError)
        ensures
            e.kind is ZeroSize,
    {
        PoolCreationError { kind: CreationFailure::ZeroSize }
    }

    /// The error for a failed OS thread creation, carrying its cause.
    pub fn spawn_failure(cause: String) -> (e: PoolCreationError)
        ensures
            e.kind matches CreationFailure::SpawnFailure { cause: c } && c == cause,
    {
        PoolCreationError { kind: CreationFailure::SpawnFailure { cause } }
    }

    /// A human-readable explanation of the failure.
    pub fn message(&self) -> (m: String)
        ensures
            self.kind is ZeroSize ==> m@ == "size must be greater than zero"@,
            self.kind matches CreationFailure::SpawnFailure { cause } ==> m@ == cause@,
    {
        match &self.kind {
            CreationFailure::ZeroSize => "size must be greater than zero".to_owned(),
            CreationFailure::SpawnFailure { cause } => cause.clone(),
        }
    }
}

/// Why submitting a job failed. Submission errors are returned to the
/// caller; the rejected job is never executed.
#[derive(Debug, PartialEq, Eq, Structural)]
pub enum ExecuteError {
    /// The pool has begun tearing down: the queue no longer accepts jobs.
    ChannelClosed,
}

} // verus!
