//! A fixed-size worker thread pool, modelled as a verified state machine.
//!
//! The pool decouples job submission from job execution: a bounded set of
//! long-lived workers pull jobs from a shared FIFO queue and execute them.
//! This crate verifies the pool's control core — construction, the work
//! queue, worker lifecycle, exactly-once dispatch, and shutdown/drain — as
//! a state machine over plain values. A thin unverified harness owns the OS
//! threads and the real channel and drives this core for every decision.

pub mod errors;
pub mod pool;
pub mod queue;

pub use errors::CreationFailure;
pub use errors::ExecuteError;
pub use errors::PoolCreationError;
pub use pool::JobOutcome;
pub use pool::PoolPhase;
pub use pool::ThreadPool;
pub use pool::Worker;
pub use pool::WorkerPoll;
pub use queue::Receipt;
pub use queue::WorkQueue;
