//! The work queue: an unbounded FIFO hand-off of job identifiers between
//! submitters and workers.
//!
//! Jobs are identified here by the numbers the pool assigns them at
//! submission. The queue preserves arrival order, delivers each entry at
//! most once, and, once closed, rejects new entries while still handing out
//! the ones already queued (the drain guarantee).

use crate::errors::ExecuteError;
use vstd::prelude::*;

verus! {

/// What a receive attempt yielded.
#[derive(Debug, PartialEq, Eq, Structural)]
pub enum Receipt {
    /// A job was dequeued; it now belongs exclusively to the receiver.
    Job(u64),
    /// The queue is closed and fully drained: the receiver should shut down.
    Disconnected,
    /// The queue is open but momentarily empty: the receiver should block
    /// and try again.
    Pending,
}

/// A FIFO queue of job identifiers with a closeable sending side.
#[derive(Debug)]
pub struct WorkQueue {
    pub jobs: Vec<u64>,
    pub closed: bool,
}

impl View for WorkQueue {
    type V = Seq<u64>;

    open spec fn view(&self) -> Seq<u64> {
        self.jobs@
    }
}

impl WorkQueue {
    /// Whether the sending side has been closed.
    pub open spec fn spec_closed(self) -> bool {
        self.closed
    }

    /// An open, empty queue.
    pub fn new() -> (q: WorkQueue)
        ensures
            q@ == Seq::<u64>::empty(),
            !q.spec_closed(),
    {
        WorkQueue { jobs: Vec::new(), closed: false }
    }

    /// Enqueue a job for execution by some worker. Never blocks the caller;
    /// fails exactly when the queue has been closed, in which case the job
    /// is not enqueued and the queue is unchanged.
    pub fn send(&mut self, job: u64) -> (r: Result<(), ExecuteError>)
        ensures
            !old(self).spec_closed() ==> {
                &&& r is Ok
                &&& final(self)@ == old(self)@.push(job)
                &&& !final(self).spec_closed()
            },
            old(self).spec_closed() ==> {
                &&& r == Err::<(), ExecuteError>(ExecuteError::ChannelClosed)
                &&& *final(self) == *old(self)
            },
    {
        if self.closed {
            Err(ExecuteError::ChannelClosed)
        } else {
            self.jobs.push(job);
            Ok(())
        }
    }

    /// Dequeue the oldest job, or report why none is available: `Disconnected`
    /// once the queue is closed and drained, `Pending` while it is open but
    /// empty (the caller should block and retry).
    pub fn try_receive(&mut self) -> (r: Receipt)
        ensures
            old(self)@.len() > 0 ==> {
                &&& r == Receipt::Job(old(self)@[0])
                &&& final(self)@ == old(self)@.drop_first()
                &&& final(self).spec_closed() == old(self).spec_closed()
            },
            old(self)@.len() == 0 ==> *final(self) == *old(self),
            old(self)@.len() == 0 && old(self).spec_closed() ==> r == Receipt::Disconnected,
            old(self)@.len() == 0 && !old(self).spec_closed() ==> r == Receipt::Pending,
    {
        if self.jobs.len() > 0 {
            let job = self.jobs.remove(0);
            proof {
                assert(self.jobs@ =~= old(self)@.drop_first());
            }
            Receipt::Job(job)
        } else if self.closed {
            Receipt::Disconnected
        } else {
            Receipt::Pending
        }
    }

    /// Close the sending side: no further `send` succeeds, but everything
    /// already queued stays available to receivers.
    pub fn close(&mut self)
        ensures
            final(self)@ == old(self)@,
            final(self).spec_closed(),
    {
        self.closed = true;
    }

    /// How many jobs are queued but not yet handed out.
    pub fn len(&self) -> (n: usize)
        ensures
            n == self@.len(),
    {
        self.jobs.len()
    }

    /// Whether the sending side has been closed (executable query).
    pub fn is_closed(&self) -> (b: bool)
        ensures
            b == self.spec_closed(),
    {
        self.closed
    }
}

} // verus!
