//! The thread pool's control core: a verified state machine over plain
//! values.
//!
//! The pool assigns each submitted job a fresh identifier and tracks where
//! every identifier stands: queued, claimed by exactly one worker, or
//! executed. The unverified harness that owns the OS threads drives this
//! machine for every decision — what a worker does with a received message,
//! when submission is rejected, when teardown may complete — so the
//! scheduling rules themselves are proved here: exactly-once dispatch, task
//! failures isolated to the failing job, and the drain guarantee at
//! shutdown.

use crate::errors::ExecuteError;
use crate::errors::PoolCreationError;
use crate::queue::Receipt;
use crate::queue::WorkQueue;
use vstd::prelude::*;

verus! {

/// How a job's execution ended. An abnormal end is contained at the worker
/// boundary: it is recorded and the worker resumes its loop.
#[derive(Debug, PartialEq, Eq, Structural, Clone, Copy)]
pub enum JobOutcome {
    /// The job ran to completion.
    Completed,
    /// The job aborted abnormally while running.
    Aborted,
}

/// Where the pool stands in its lifecycle.
#[derive(Debug, PartialEq, Eq, Structural, Clone, Copy)]
pub enum PoolPhase {
    /// Workers serve jobs and `execute` accepts submissions.
    Running,
    /// Teardown has begun: submission is closed, workers drain the queue.
    ShuttingDown,
    /// Every worker has terminated and the queue is drained.
    Terminated,
}

/// What a worker should do after asking the pool for work.
#[derive(Debug, PartialEq, Eq, Structural, Clone, Copy)]
pub enum WorkerPoll {
    /// Run the named job; the worker now owns it exclusively.
    Run(u64),
    /// The queue is closed and drained: exit the receive loop.
    Exit,
    /// Nothing is available yet: block on the queue and ask again.
    Wait,
}

/// One worker's book-keeping entry: its identifier, whether its thread is
/// still alive, and the job it currently holds, if any.
#[derive(Debug, PartialEq, Eq, Structural, Clone, Copy)]
pub struct Worker {
    pub id: usize,
    pub alive: bool,
    pub in_flight: Option<u64>,
}

/// The record of one finished job: which job, which worker ran it, and how
/// it ended.
#[derive(Debug, PartialEq, Eq, Structural, Clone, Copy)]
pub struct ExecRecord {
    pub job: u64,
    pub worker: usize,
    pub outcome: JobOutcome,
}

/// The pool's verified state: its phase, one entry per worker, the shared
/// work queue, the number of jobs submitted so far (identifiers `0..jobs`),
/// and the log of executions.
#[derive(Debug)]
pub struct ThreadPool {
    pub phase: PoolPhase,
    pub workers: Vec<Worker>,
    pub queue: WorkQueue,
    pub jobs: u64,
    pub executed: Vec<ExecRecord>,
}

impl ThreadPool {
    /// The number of workers, fixed at construction.
    pub open spec fn worker_count(self) -> nat {
        self.workers@.len()
    }

    /// Identifiers queued but not yet claimed, oldest first.
    pub open spec fn pending(self) -> Seq<u64> {
        self.queue@
    }

    /// How many jobs have been submitted; their identifiers are
    /// `0..submitted()`.
    pub open spec fn submitted(self) -> u64 {
        self.jobs
    }

    /// The execution log, in completion order.
    pub open spec fn log(self) -> Seq<ExecRecord> {
        self.executed@
    }

    /// The identifiers of executed jobs, in completion order.
    pub open spec fn executed_ids(self) -> Seq<u64> {
        self.executed@.map_values(|r: ExecRecord| r.job)
    }

    /// The pool's current phase.
    pub open spec fn spec_phase(self) -> PoolPhase {
        self.phase
    }

    /// The job worker `w` currently holds, if any.
    pub open spec fn in_flight_of(self, w: int) -> Option<u64> {
        self.workers@[w].in_flight
    }

    /// Whether worker `w`'s thread is still alive.
    pub open spec fn worker_alive(self, w: int) -> bool {
        self.workers@[w].alive
    }

    /// Whether some worker currently holds job `j`.
    pub open spec fn held_by_some_worker(self, j: u64) -> bool {
        exists|w: int|
            0 <= w < self.worker_count() && self.in_flight_of(w) == Some(j)
    }

    /// Whether submitted job `j` is accounted for somewhere: still queued,
    /// held by a worker, or executed.
    pub open spec fn placed(self, j: u64) -> bool {
        ||| self.pending().contains(j)
        ||| self.held_by_some_worker(j)
        ||| self.executed_ids().contains(j)
    }

    /// The pool's invariant. Every operation requires and preserves it; it
    /// carries exactly-once dispatch and the drain guarantee.
    pub open spec fn wf(self) -> bool {
        // at least one worker, numbered by position
        &&& self.worker_count() >= 1
        &&& forall|w: int|
            0 <= w < self.worker_count() ==> (#[trigger] self.workers@[w]).id == w
        // queued identifiers were submitted, and are distinct
        &&& forall|i: int|
            0 <= i < self.pending().len() ==> #[trigger] self.pending()[i] < self.jobs
        &&& forall|i: int, k: int|
            0 <= i < k < self.pending().len() ==> self.pending()[i] != self.pending()[k]
        // executed identifiers were submitted, by a real worker, and are distinct
        &&& forall|i: int|
            0 <= i < self.log().len() ==> (#[trigger] self.log()[i]).job < self.jobs
                && self.log()[i].worker < self.worker_count()
        &&& forall|i: int, k: int|
            0 <= i < k < self.log().len() ==> self.log()[i].job != self.log()[k].job
        // jobs in flight were submitted; a dead worker holds none; no two
        // workers hold the same job
        &&& forall|w: int|
            0 <= w < self.worker_count() && (#[trigger] self.in_flight_of(w)) is Some
                ==> self.in_flight_of(w)->0 < self.jobs
        &&& forall|w: int|
            0 <= w < self.worker_count() && !(#[trigger] self.workers@[w]).alive
                ==> self.in_flight_of(w) is None
        &&& forall|w1: int, w2: int|
            0 <= w1 < w2 < self.worker_count() && self.in_flight_of(w1) is Some
                ==> self.in_flight_of(w1) != self.in_flight_of(w2)
        // a job stands in at most one place
        &&& forall|i: int, k: int|
            0 <= i < self.pending().len() && 0 <= k < self.log().len()
                ==> #[trigger] self.pending()[i] != (#[trigger] self.log()[k]).job
        &&& forall|i: int, w: int|
            0 <= i < self.pending().len() && 0 <= w < self.worker_count()
                ==> Some(#[trigger] self.pending()[i]) != #[trigger] self.in_flight_of(w)
        &&& forall|k: int, w: int|
            0 <= k < self.log().len() && 0 <= w < self.worker_count()
                ==> Some((#[trigger] self.log()[k]).job) != #[trigger] self.in_flight_of(w)
        // and in at least one: no submitted job is ever lost
        &&& forall|j: u64| j < self.jobs ==> #[trigger] self.placed(j)
        // submission is open exactly while the pool runs
        &&& (self.phase is Running <==> !self.queue.spec_closed())
        // no worker exits before teardown; none survives it
        &&& (self.phase is Running ==> forall|w: int|
            0 <= w < self.worker_count() ==> (#[trigger] self.workers@[w]).alive)
        &&& (self.phase is Terminated ==> forall|w: int|
            0 <= w < self.worker_count() ==> !(#[trigger] self.workers@[w]).alive)
        // workers only exit against a drained queue
        &&& ((forall|w: int|
            0 <= w < self.worker_count() ==> !(#[trigger] self.workers@[w]).alive)
            ==> self.pending().len() == 0)
    }

    /// Construct a pool of exactly `size` workers around a fresh, open
    /// queue. Requesting zero workers fails with `ZeroSize` and constructs
    /// nothing; any positive size succeeds.
    pub fn build(size: usize) -> (r: Result<ThreadPool, PoolCreationError>)
        ensures
            size == 0 ==> (r matches Err(e) && e.kind is ZeroSize),
            size >= 1 ==> (r matches Ok(p) && {
                &&& p.wf()
                &&& p.worker_count() == size
                &&& p.spec_phase() is Running
                &&& p.pending().len() == 0
                &&& p.submitted() == 0
                &&& p.log().len() == 0
                &&& forall|w: int| 0 <= w < size ==> #[trigger] p.worker_alive(w)
                &&& forall|w: int| 0 <= w < size ==> #[trigger] p.in_flight_of(w) is None
            }),
    {
        if size == 0 {
            return Err(PoolCreationError::zero_size());
        }
        let mut workers: Vec<Worker> = Vec::with_capacity(size);
        let mut id: usize = 0;
        while id < size
            invariant
                id <= size,
                workers@.len() == id,
                forall|w: int|
                    0 <= w < id ==> #[trigger] workers@[w] == (Worker {
                        id: w as usize,
                        alive: true,
                        in_flight: None,
                    }),
            decreases size - id,
        {
            workers.push(Worker { id, alive: true, in_flight: None });
            id = id + 1;
        }
        Ok(ThreadPool {
            phase: PoolPhase::Running,
            workers,
            queue: WorkQueue::new(),
            jobs: 0,
            executed: Vec::new(),
        })
    }

    /// Submit a job. While the pool runs this assigns the next identifier
    /// and enqueues it — it never blocks. Once teardown has begun it fails
    /// with `ChannelClosed`, enqueues nothing, and leaves the pool
    /// unchanged.
    pub fn execute(&mut self) -> (r: Result<u64, ExecuteError>)
        requires
            old(self).wf(),
            old(self).submitted() < u64::MAX,
        ensures
            final(self).wf(),
            old(self).spec_phase() is Running ==> {
                &&& r == Ok::<u64, ExecuteError>(old(self).submitted())
                &&& final(self).submitted() == old(self).submitted() + 1
                &&& final(self).pending() == old(self).pending().push(old(self).submitted())
                &&& final(self).log() == old(self).log()
                &&& final(self).workers == old(self).workers
                &&& final(self).spec_phase() is Running
            },
            !(old(self).spec_phase() is Running) ==> {
                &&& r == Err::<u64, ExecuteError>(ExecuteError::ChannelClosed)
                &&& *final(self) == *old(self)
            },
    {
        let id = self.jobs;
        match self.queue.send(id) {
            Ok(()) => {
                self.jobs = id + 1;
                proof {
                    let o = *old(self);
                    let oldp = o.pending();
                    let newp = self.pending();
                    assert(self.workers@ == o.workers@);
                    assert(self.executed@ == o.executed@);
                    assert(newp == oldp.push(id));
                    assert(o.phase is Running);
                    assert(self.workers@[0].alive);
                    assert forall|i: int| 0 <= i < newp.len() implies #[trigger] newp[i]
                        < self.jobs by {
                        if i < oldp.len() {
                            assert(oldp[i] < o.jobs);
                        }
                    }
                    assert forall|i: int, k: int| 0 <= i < k < newp.len() implies newp[i]
                        != newp[k] by {
                        if k < oldp.len() {
                            assert(oldp[i] != oldp[k]);
                        } else {
                            assert(oldp[i] < o.jobs);
                            assert(newp[k] == id);
                        }
                    }
                    assert forall|i: int, k: int|
                        0 <= i < newp.len() && 0 <= k < self.log().len() implies #[trigger] newp[i]
                        != (#[trigger] self.log()[k]).job by {
                        assert(self.log()[k] == o.log()[k]);
                        assert(o.log()[k].job < o.jobs);
                        if i < oldp.len() {
                            assert(oldp[i] != o.log()[k].job);
                        } else {
                            assert(newp[i] == id);
                        }
                    }
                    assert forall|w: int| 0 <= w < self.worker_count() implies #[trigger] self
                        .in_flight_of(w) == o.in_flight_of(w) by {}
                    assert forall|i: int, w: int|
                        0 <= i < newp.len() && 0 <= w < self.worker_count() implies Some(
                        #[trigger] newp[i],
                    ) != #[trigger] self.in_flight_of(w) by {
                        assert(self.in_flight_of(w) == o.in_flight_of(w));
                        if i < oldp.len() {
                            assert(Some(oldp[i]) != o.in_flight_of(w));
                        } else {
                            assert(newp[i] == id);
                            if o.in_flight_of(w) is Some {
                                assert(o.in_flight_of(w)->0 < o.jobs);
                            }
                        }
                    }
                    assert forall|j: u64| j < self.jobs implies #[trigger] self.placed(j) by {
                        if j < old(self).jobs {
                            assert(old(self).placed(j));
                            if old(self).pending().contains(j) {
                                let i = choose|i: int|
                                    0 <= i < old(self).pending().len()
                                        && old(self).pending()[i] == j;
                                assert(self.pending()[i] == j);
                            } else if old(self).held_by_some_worker(j) {
                                let w = choose|w: int|
                                    0 <= w < old(self).worker_count()
                                        && old(self).in_flight_of(w) == Some(j);
                                assert(self.in_flight_of(w) == Some(j));
                            }
                        } else {
                            let n = self.pending().len() - 1;
                            assert(self.pending()[n] == j);
                        }
                    }
                }
                Ok(id)
            },
            Err(e) => Err(e),
        }
    }

    /// Ask the pool, on behalf of worker `worker`, what to do next: run the
    /// oldest queued job (the worker then owns it exclusively), exit because
    /// the queue is closed and drained, or block and ask again. A worker
    /// only asks between jobs — never while it still holds one.
    pub fn worker_poll(&mut self, worker: usize) -> (r: WorkerPoll)
        requires
            old(self).wf(),
            worker < old(self).worker_count(),
            old(self).worker_alive(worker as int),
            old(self).in_flight_of(worker as int) is None,
        ensures
            final(self).wf(),
            final(self).worker_count() == old(self).worker_count(),
            final(self).submitted() == old(self).submitted(),
            final(self).log() == old(self).log(),
            final(self).spec_phase() == old(self).spec_phase(),
            forall|w: int|
                0 <= w < old(self).worker_count() && w != worker ==> final(self).workers@[w]
                    == old(self).workers@[w],
            old(self).pending().len() > 0 ==> {
                &&& r == WorkerPoll::Run(old(self).pending()[0])
                &&& final(self).pending() == old(self).pending().drop_first()
                &&& final(self).in_flight_of(worker as int) == Some(old(self).pending()[0])
                &&& final(self).worker_alive(worker as int)
            },
            old(self).pending().len() == 0 && !(old(self).spec_phase() is Running) ==> {
                &&& r == WorkerPoll::Exit
                &&& final(self).pending() == old(self).pending()
                &&& !final(self).worker_alive(worker as int)
                &&& final(self).in_flight_of(worker as int) is None
            },
            old(self).pending().len() == 0 && old(self).spec_phase() is Running ==> {
                &&& r == WorkerPoll::Wait
                &&& *final(self) == *old(self)
            },
    {
        match self.queue.try_receive() {
            Receipt::Job(job) => {
                self.workers[worker].in_flight = Some(job);
                proof {
                    self.lemma_poll_run(*old(self), worker as int, job);
                }
                WorkerPoll::Run(job)
            },
            Receipt::Disconnected => {
                self.workers[worker].alive = false;
                proof {
                    self.lemma_poll_exit(*old(self), worker as int);
                }
                WorkerPoll::Exit
            },
            Receipt::Pending => WorkerPoll::Wait,
        }
    }

    /// The `Run` arm of `worker_poll` preserves the invariant.
    proof fn lemma_poll_run(self, o: ThreadPool, worker: int, job: u64)
        requires
            o.wf(),
            0 <= worker < o.worker_count(),
            o.worker_alive(worker),
            o.in_flight_of(worker) is None,
            o.pending().len() > 0,
            job == o.pending()[0],
            self.phase == o.phase,
            self.jobs == o.jobs,
            self.executed == o.executed,
            self.queue.spec_closed() == o.queue.spec_closed(),
            self.pending() == o.pending().drop_first(),
            self.workers@ == o.workers@.update(
                worker,
                Worker { in_flight: Some(job), ..o.workers@[worker] },
            ),
        ensures
            self.wf(),
    {
        let oldp = o.pending();
        let newp = self.pending();
        assert(self.log() == o.log());
        assert forall|i: int| 0 <= i < newp.len() implies #[trigger] newp[i] < self.jobs by {
            assert(newp[i] == oldp[i + 1]);
        }
        assert forall|i: int, k: int| 0 <= i < k < newp.len() implies newp[i] != newp[k] by {
            assert(newp[i] == oldp[i + 1]);
            assert(newp[k] == oldp[k + 1]);
            assert(oldp[i + 1] != oldp[k + 1]);
        }
        assert forall|i: int, k: int|
            0 <= i < newp.len() && 0 <= k < self.log().len() implies #[trigger] newp[i]
            != (#[trigger] self.log()[k]).job by {
            assert(newp[i] == oldp[i + 1]);
            assert(oldp[i + 1] != o.log()[k].job);
        }
        assert forall|w: int|
            0 <= w < self.worker_count() && (#[trigger] self.in_flight_of(w)) is Some implies self
            .in_flight_of(w)->0 < self.jobs by {
            if w != worker {
                assert(self.in_flight_of(w) == o.in_flight_of(w));
            }
        }
        assert forall|w1: int, w2: int|
            0 <= w1 < w2 < self.worker_count() && self.in_flight_of(w1) is Some implies self
            .in_flight_of(w1) != self.in_flight_of(w2) by {
            if w1 != worker && w2 != worker {
                assert(self.in_flight_of(w1) == o.in_flight_of(w1));
                assert(self.in_flight_of(w2) == o.in_flight_of(w2));
            } else if w1 == worker {
                assert(self.in_flight_of(w2) == o.in_flight_of(w2));
                assert(Some(oldp[0]) != o.in_flight_of(w2));
            } else {
                assert(self.in_flight_of(w1) == o.in_flight_of(w1));
                assert(Some(oldp[0]) != o.in_flight_of(w1));
            }
        }
        assert forall|i: int, w: int|
            0 <= i < newp.len() && 0 <= w < self.worker_count() implies Some(#[trigger] newp[i])
            != #[trigger] self.in_flight_of(w) by {
            assert(newp[i] == oldp[i + 1]);
            if w != worker {
                assert(self.in_flight_of(w) == o.in_flight_of(w));
                assert(Some(oldp[i + 1]) != o.in_flight_of(w));
            } else {
                assert(oldp[i + 1] != oldp[0]);
            }
        }
        assert forall|k: int, w: int|
            0 <= k < self.log().len() && 0 <= w < self.worker_count() implies Some(
            (#[trigger] self.log()[k]).job,
        ) != #[trigger] self.in_flight_of(w) by {
            if w != worker {
                assert(self.in_flight_of(w) == o.in_flight_of(w));
                assert(Some(o.log()[k].job) != o.in_flight_of(w));
            } else {
                assert(oldp[0] != o.log()[k].job);
            }
        }
        assert forall|j: u64| j < self.jobs implies #[trigger] self.placed(j) by {
            assert(o.placed(j));
            if oldp.contains(j) {
                let i = choose|i: int| 0 <= i < oldp.len() && oldp[i] == j;
                if i == 0 {
                    assert(self.in_flight_of(worker) == Some(j));
                } else {
                    assert(newp[i - 1] == j);
                }
            } else if o.held_by_some_worker(j) {
                let w = choose|w: int|
                    0 <= w < o.worker_count() && o.in_flight_of(w) == Some(j);
                assert(self.in_flight_of(w) == Some(j));
            } else {
                let k = choose|k: int|
                    0 <= k < o.executed_ids().len() && o.executed_ids()[k] == j;
                assert(self.executed_ids()[k] == j);
            }
        }
        assert(self.worker_alive(worker));
        assert forall|w: int| 0 <= w < self.worker_count() implies (
        #[trigger] self.workers@[w]).id == w by {
            assert(o.workers@[w].id == w);
        }
        if self.phase is Running {
            assert forall|w: int| 0 <= w < self.worker_count() implies (
            #[trigger] self.workers@[w]).alive by {
                assert(o.workers@[w].alive);
            }
        }
        assert(!(self.phase is Terminated)) by {
            if o.phase is Terminated {
                assert(!o.workers@[worker].alive);
            }
        }
        assert forall|w: int|
            0 <= w < self.worker_count() && !(#[trigger] self.workers@[w]).alive implies self
            .in_flight_of(w) is None by {
            if w != worker {
                assert(!o.workers@[w].alive);
            }
        }
    }

    /// The `Exit` arm of `worker_poll` preserves the invariant.
    proof fn lemma_poll_exit(self, o: ThreadPool, worker: int)
        requires
            o.wf(),
            0 <= worker < o.worker_count(),
            o.worker_alive(worker),
            o.in_flight_of(worker) is None,
            o.pending().len() == 0,
            o.queue.spec_closed(),
            self.phase == o.phase,
            self.jobs == o.jobs,
            self.executed == o.executed,
            self.queue == o.queue,
            self.workers@ == o.workers@.update(
                worker,
                Worker { alive: false, ..o.workers@[worker] },
            ),
        ensures
            self.wf(),
    {
        assert(self.pending() == o.pending());
        assert(self.log() == o.log());
        assert forall|w: int|
            0 <= w < self.worker_count() && w != worker implies #[trigger] self.workers@[w]
            == o.workers@[w] by {}
        assert forall|w: int|
            0 <= w < self.worker_count() && (#[trigger] self.in_flight_of(w)) is Some implies self
            .in_flight_of(w)->0 < self.jobs by {
            assert(self.in_flight_of(w) == o.in_flight_of(w));
        }
        assert forall|w1: int, w2: int|
            0 <= w1 < w2 < self.worker_count() && self.in_flight_of(w1) is Some implies self
            .in_flight_of(w1) != self.in_flight_of(w2) by {
            assert(self.in_flight_of(w1) == o.in_flight_of(w1));
            assert(self.in_flight_of(w2) == o.in_flight_of(w2));
        }
        assert forall|k: int, w: int|
            0 <= k < self.log().len() && 0 <= w < self.worker_count() implies Some(
            (#[trigger] self.log()[k]).job,
        ) != #[trigger] self.in_flight_of(w) by {
            assert(self.in_flight_of(w) == o.in_flight_of(w));
            assert(Some(o.log()[k].job) != o.in_flight_of(w));
        }
        assert forall|j: u64| j < self.jobs implies #[trigger] self.placed(j) by {
            assert(o.placed(j));
            if o.held_by_some_worker(j) {
                let w = choose|w: int|
                    0 <= w < o.worker_count() && o.in_flight_of(w) == Some(j);
                assert(self.in_flight_of(w) == Some(j));
            } else {
                let k = choose|k: int|
                    0 <= k < o.executed_ids().len() && o.executed_ids()[k] == j;
                assert(self.executed_ids()[k] == j);
            }
        }
        assert forall|w: int| 0 <= w < self.worker_count() implies (
        #[trigger] self.workers@[w]).id == w by {
            assert(o.workers@[w].id == w);
        }
        assert(!(self.phase is Running));
        assert forall|w: int|
            0 <= w < self.worker_count() && !(#[trigger] self.workers@[w]).alive implies self
            .in_flight_of(w) is None by {
            assert(self.in_flight_of(w) == o.in_flight_of(w));
            if w != worker {
                assert(!o.workers@[w].alive);
            }
        }
        if self.phase is Terminated {
            assert forall|w: int| 0 <= w < self.worker_count() implies !(
            #[trigger] self.workers@[w]).alive by {
                if w != worker {
                    assert(!o.workers@[w].alive);
                }
            }
        }
    }

    /// Record that worker `worker` finished the job it holds, however the
    /// job ended. An abnormal end is contained: whatever the outcome, the
    /// worker stays alive, the worker count is unchanged, and the only
    /// difference the outcome makes is the record appended to the log.
    pub fn worker_finish(&mut self, worker: usize, outcome: JobOutcome)
        requires
            old(self).wf(),
            worker < old(self).worker_count(),
            old(self).in_flight_of(worker as int) is Some,
        ensures
            final(self).wf(),
            final(self).worker_count() == old(self).worker_count(),
            final(self).submitted() == old(self).submitted(),
            final(self).pending() == old(self).pending(),
            final(self).spec_phase() == old(self).spec_phase(),
            final(self).log() == old(self).log().push(
                ExecRecord {
                    job: old(self).in_flight_of(worker as int)->0,
                    worker,
                    outcome,
                },
            ),
            final(self).in_flight_of(worker as int) is None,
            final(self).worker_alive(worker as int),
            forall|w: int|
                0 <= w < old(self).worker_count() && w != worker ==> final(self).workers@[w]
                    == old(self).workers@[w],
    {
        let job = match self.workers[worker].in_flight {
            Some(j) => j,
            None => 0,  // unreachable: the worker holds a job
        };
        self.workers[worker].in_flight = None;
        self.executed.push(ExecRecord { job, worker, outcome });
        proof {
            self.lemma_finish(*old(self), worker as int, job, outcome);
        }
    }

    /// `worker_finish` preserves the invariant.
    proof fn lemma_finish(self, o: ThreadPool, worker: int, job: u64, outcome: JobOutcome)
        requires
            o.wf(),
            0 <= worker < o.worker_count(),
            o.in_flight_of(worker) == Some(job),
            self.phase == o.phase,
            self.jobs == o.jobs,
            self.queue == o.queue,
            self.executed@ == o.executed@.push(ExecRecord { job, worker: worker as usize, outcome }),
            self.workers@ == o.workers@.update(
                worker,
                Worker { in_flight: None, ..o.workers@[worker] },
            ),
        ensures
            self.wf(),
    {
        let oldl = o.log();
        let newl = self.log();
        assert(self.pending() == o.pending());
        assert(o.workers@[worker].alive);
        assert forall|i: int| 0 <= i < newl.len() implies (#[trigger] newl[i]).job < self.jobs
            && newl[i].worker < self.worker_count() by {
            if i < oldl.len() {
                assert(newl[i] == oldl[i]);
            }
        }
        assert forall|i: int, k: int| 0 <= i < k < newl.len() implies newl[i].job
            != newl[k].job by {
            if k < oldl.len() {
                assert(newl[i] == oldl[i]);
                assert(newl[k] == oldl[k]);
                assert(oldl[i].job != oldl[k].job);
            } else {
                assert(newl[i] == oldl[i]);
                assert(newl[k].job == job);
                assert(Some(oldl[i].job) != o.in_flight_of(worker));
            }
        }
        assert forall|i: int, k: int|
            0 <= i < self.pending().len() && 0 <= k < newl.len() implies #[trigger] self.pending()[i]
            != (#[trigger] newl[k]).job by {
            if k < oldl.len() {
                assert(newl[k] == oldl[k]);
                assert(o.pending()[i] != oldl[k].job);
            } else {
                assert(newl[k].job == job);
                assert(Some(o.pending()[i]) != o.in_flight_of(worker));
            }
        }
        assert forall|w: int|
            0 <= w < self.worker_count() && (#[trigger] self.in_flight_of(w)) is Some implies self
            .in_flight_of(w)->0 < self.jobs by {
            assert(w != worker);
            assert(self.in_flight_of(w) == o.in_flight_of(w));
        }
        assert forall|w1: int, w2: int|
            0 <= w1 < w2 < self.worker_count() && self.in_flight_of(w1) is Some implies self
            .in_flight_of(w1) != self.in_flight_of(w2) by {
            assert(w1 != worker);
            assert(self.in_flight_of(w1) == o.in_flight_of(w1));
            if w2 != worker {
                assert(self.in_flight_of(w2) == o.in_flight_of(w2));
            }
        }
        assert forall|i: int, w: int|
            0 <= i < self.pending().len() && 0 <= w < self.worker_count() implies Some(
            #[trigger] self.pending()[i],
        ) != #[trigger] self.in_flight_of(w) by {
            if w != worker {
                assert(self.in_flight_of(w) == o.in_flight_of(w));
                assert(Some(o.pending()[i]) != o.in_flight_of(w));
            }
        }
        assert forall|k: int, w: int|
            0 <= k < newl.len() && 0 <= w < self.worker_count() implies Some(
            (#[trigger] newl[k]).job,
        ) != #[trigger] self.in_flight_of(w) by {
            if w != worker {
                assert(self.in_flight_of(w) == o.in_flight_of(w));
                if k < oldl.len() {
                    assert(newl[k] == oldl[k]);
                    assert(Some(oldl[k].job) != o.in_flight_of(w));
                } else {
                    assert(newl[k].job == job);
                    assert(o.in_flight_of(worker) != o.in_flight_of(w));
                }
            }
        }
        assert forall|j: u64| j < self.jobs implies #[trigger] self.placed(j) by {
            assert(o.placed(j));
            if o.pending().contains(j) {
                assert(self.pending().contains(j));
            } else if o.held_by_some_worker(j) {
                let w = choose|w: int|
                    0 <= w < o.worker_count() && o.in_flight_of(w) == Some(j);
                if w == worker {
                    assert(self.executed_ids()[oldl.len() as int] == j);
                } else {
                    assert(self.in_flight_of(w) == Some(j));
                }
            } else {
                let k = choose|k: int|
                    0 <= k < o.executed_ids().len() && o.executed_ids()[k] == j;
                assert(self.executed_ids()[k] == j);
            }
        }
        assert forall|w: int| 0 <= w < self.worker_count() implies (
        #[trigger] self.workers@[w]).id == w by {
            assert(o.workers@[w].id == w);
        }
        if self.phase is Running {
            assert forall|w: int| 0 <= w < self.worker_count() implies (
            #[trigger] self.workers@[w]).alive by {
                assert(o.workers@[w].alive);
            }
        }
        assert(!(self.phase is Terminated)) by {
            if o.phase is Terminated {
                assert(!o.workers@[worker].alive);
            }
        }
        assert forall|w: int|
            0 <= w < self.worker_count() && !(#[trigger] self.workers@[w]).alive implies self
            .in_flight_of(w) is None by {
            if w != worker {
                assert(!o.workers@[w].alive);
            }
        }
        assert(self.workers@[worker].alive);
        assert(o.pending().len() == 0 ==> self.pending().len() == 0);
    }

    /// Begin teardown: close the queue so that no further submission
    /// succeeds. Everything already queued stays queued — submitted work is
    /// never discarded — and every worker is still alive.
    pub fn begin_teardown(&mut self)
        requires
            old(self).wf(),
            old(self).spec_phase() is Running,
        ensures
            final(self).wf(),
            final(self).spec_phase() is ShuttingDown,
            final(self).worker_count() == old(self).worker_count(),
            final(self).submitted() == old(self).submitted(),
            final(self).pending() == old(self).pending(),
            final(self).log() == old(self).log(),
            final(self).workers == old(self).workers,
    {
        self.queue.close();
        self.phase = PoolPhase::ShuttingDown;
        proof {
            let o = *old(self);
            assert(self.workers@ == o.workers@);
            assert(self.executed@ == o.executed@);
            assert(self.pending() == o.pending());
            assert forall|j: u64| j < self.jobs implies #[trigger] self.placed(j) by {
                assert(o.placed(j));
                if o.held_by_some_worker(j) {
                    let w = choose|w: int|
                        0 <= w < o.worker_count() && o.in_flight_of(w) == Some(j);
                    assert(self.in_flight_of(w) == Some(j));
                }
            }
            assert forall|w: int| 0 <= w < self.worker_count() implies (
            #[trigger] self.workers@[w]).id == w && self.workers@[w].alive by {
                assert(o.workers@[w].id == w);
                assert(o.workers@[w].alive);
            }
            assert(self.workers@[0].alive);
        }
    }

    /// Complete teardown once every worker has exited. The queue is then
    /// necessarily drained, and every job ever submitted has been executed.
    pub fn finish_teardown(&mut self)
        requires
            old(self).wf(),
            old(self).spec_phase() is ShuttingDown,
            forall|w: int| 0 <= w < old(self).worker_count() ==> !old(self).worker_alive(w),
        ensures
            final(self).wf(),
            final(self).spec_phase() is Terminated,
            final(self).worker_count() == old(self).worker_count(),
            final(self).submitted() == old(self).submitted(),
            final(self).log() == old(self).log(),
            final(self).workers == old(self).workers,
            final(self).pending().len() == 0,
            forall|j: u64|
                j < final(self).submitted() ==> #[trigger] final(self).executed_ids().contains(j),
    {
        self.phase = PoolPhase::Terminated;
        proof {
            let o = *old(self);
            assert(self.workers@ == o.workers@);
            assert(self.executed@ == o.executed@);
            assert(self.pending() == o.pending());
            assert forall|w: int| 0 <= w < self.worker_count() implies (
            #[trigger] self.workers@[w]).id == w && !self.workers@[w].alive
                && self.in_flight_of(w) is None by {
                assert(o.workers@[w].id == w);
                assert(!o.worker_alive(w));
                assert(o.in_flight_of(w) is None);
            }
            assert(self.pending().len() == 0);
            assert forall|j: u64| j < self.jobs implies #[trigger] self.executed_ids().contains(
                j,
            ) by {
                assert(o.placed(j));
                if o.pending().contains(j) {
                    let i = choose|i: int| 0 <= i < o.pending().len() && o.pending()[i] == j;
                    assert(false);
                } else if o.held_by_some_worker(j) {
                    let w = choose|w: int|
                        0 <= w < o.worker_count() && o.in_flight_of(w) == Some(j);
                    assert(o.in_flight_of(w) is None);
                    assert(false);
                } else {
                    let k = choose|k: int|
                        0 <= k < o.executed_ids().len() && o.executed_ids()[k] == j;
                    assert(self.executed_ids()[k] == j);
                }
            }
            assert forall|j: u64| j < self.jobs implies #[trigger] self.placed(j) by {
                assert(o.placed(j));
                if o.pending().contains(j) {
                    let i = choose|i: int| 0 <= i < o.pending().len() && o.pending()[i] == j;
                    assert(false);
                } else if o.held_by_some_worker(j) {
                    let w = choose|w: int|
                        0 <= w < o.worker_count() && o.in_flight_of(w) == Some(j);
                    assert(o.in_flight_of(w) is None);
                    assert(false);
                } else {
                    let k = choose|k: int|
                        0 <= k < o.executed_ids().len() && o.executed_ids()[k] == j;
                    assert(self.executed_ids()[k] == j);
                }
            }
        }
    }
}

impl ThreadPool {
    /// The number of workers in the pool.
    pub fn num_workers(&self) -> (n: usize)
        ensures
            n == self.worker_count(),
    {
        self.workers.len()
    }

    /// How many jobs have been submitted so far.
    pub fn jobs_submitted(&self) -> (n: u64)
        ensures
            n == self.submitted(),
    {
        self.jobs
    }

    /// How many jobs are queued but not yet claimed by a worker.
    pub fn pending_count(&self) -> (n: usize)
        ensures
            n == self.pending().len(),
    {
        self.queue.len()
    }

    /// How many jobs have been executed.
    pub fn executed_count(&self) -> (n: usize)
        ensures
            n == self.log().len(),
    {
        self.executed.len()
    }

    /// The `i`-th record of the execution log, in completion order.
    pub fn record_at(&self, i: usize) -> (r: ExecRecord)
        requires
            i < self.log().len(),
        ensures
            r == self.log()[i as int],
    {
        self.executed[i]
    }

    /// The pool's current phase.
    pub fn current_phase(&self) -> (r: PoolPhase)
        ensures
            r == self.spec_phase(),
    {
        self.phase
    }

    /// Whether the pool still accepts submissions.
    pub fn is_running(&self) -> (b: bool)
        ensures
            b == (self.spec_phase() is Running),
    {
        matches!(self.phase, PoolPhase::Running)
    }

    /// Whether worker `w`'s thread is still alive.
    pub fn worker_is_alive(&self, w: usize) -> (b: bool)
        requires
            w < self.worker_count(),
        ensures
            b == self.worker_alive(w as int),
    {
        self.workers[w].alive
    }

    /// Whether worker `w` is between jobs (holds none).
    pub fn worker_is_idle(&self, w: usize) -> (b: bool)
        requires
            w < self.worker_count(),
        ensures
            b == (self.in_flight_of(w as int) is None),
    {
        self.workers[w].in_flight.is_none()
    }

    /// Whether every worker has exited its receive loop.
    pub fn workers_terminated(&self) -> (b: bool)
        ensures
            b == (forall|w: int| 0 <= w < self.worker_count() ==> !self.worker_alive(w)),
    {
        let mut w: usize = 0;
        while w < self.workers.len()
            invariant
                w <= self.worker_count(),
                forall|i: int| 0 <= i < w ==> !self.worker_alive(i),
            decreases self.worker_count() - w,
        {
            if self.workers[w].alive {
                proof {
                    assert(self.worker_alive(w as int));
                }
                return false;
            }
            w = w + 1;
        }
        true
    }

    /// Whether job `j` has been executed.
    pub fn was_executed(&self, j: u64) -> (b: bool)
        ensures
            b == self.executed_ids().contains(j),
    {
        let mut i: usize = 0;
        while i < self.executed.len()
            invariant
                i <= self.log().len(),
                forall|k: int| 0 <= k < i ==> (#[trigger] self.log()[k]).job != j,
            decreases self.log().len() - i,
        {
            if self.executed[i].job == j {
                proof {
                    assert(self.executed_ids()[i as int] == j);
                }
                return true;
            }
            i = i + 1;
        }
        proof {
            if self.executed_ids().contains(j) {
                let k = choose|k: int|
                    0 <= k < self.executed_ids().len() && self.executed_ids()[k] == j;
                assert(self.log()[k].job != j);
            }
        }
        false
    }
}

/// Exactly-once dispatch. In a well-formed pool, every submitted job stands
/// in exactly one place — still queued, held by a worker, or executed — and
/// when it has been executed, the log holds exactly one record for it,
/// naming exactly one worker.
pub proof fn lemma_job_exactly_once(p: ThreadPool, j: u64)
    requires
        p.wf(),
        j < p.submitted(),
    ensures
        p.pending().contains(j) || p.held_by_some_worker(j) || p.executed_ids().contains(j),
        !(p.pending().contains(j) && p.held_by_some_worker(j)),
        !(p.pending().contains(j) && p.executed_ids().contains(j)),
        !(p.held_by_some_worker(j) && p.executed_ids().contains(j)),
        forall|w1: int, w2: int|
            0 <= w1 < p.worker_count() && 0 <= w2 < p.worker_count() && p.in_flight_of(w1)
                == Some(j) && p.in_flight_of(w2) == Some(j) ==> w1 == w2,
        forall|i: int, k: int|
            0 <= i < p.log().len() && 0 <= k < p.log().len() && (#[trigger] p.log()[i]).job == j
                && (#[trigger] p.log()[k]).job == j ==> i == k,
{
    assert(p.placed(j));
    if p.pending().contains(j) {
        let i = choose|i: int| 0 <= i < p.pending().len() && p.pending()[i] == j;
        if p.held_by_some_worker(j) {
            let w = choose|w: int| 0 <= w < p.worker_count() && p.in_flight_of(w) == Some(j);
            assert(Some(p.pending()[i]) != p.in_flight_of(w));
        }
        if p.executed_ids().contains(j) {
            let k = choose|k: int| 0 <= k < p.executed_ids().len() && p.executed_ids()[k] == j;
            assert(p.pending()[i] != p.log()[k].job);
        }
    }
    if p.held_by_some_worker(j) && p.executed_ids().contains(j) {
        let w = choose|w: int| 0 <= w < p.worker_count() && p.in_flight_of(w) == Some(j);
        let k = choose|k: int| 0 <= k < p.executed_ids().len() && p.executed_ids()[k] == j;
        assert(Some(p.log()[k].job) != p.in_flight_of(w));
    }
    assert forall|w1: int, w2: int|
        0 <= w1 < p.worker_count() && 0 <= w2 < p.worker_count() && p.in_flight_of(w1) == Some(j)
            && p.in_flight_of(w2) == Some(j) implies w1 == w2 by {
        if w1 < w2 {
            assert(p.in_flight_of(w1) != p.in_flight_of(w2));
        }
        if w2 < w1 {
            assert(p.in_flight_of(w2) != p.in_flight_of(w1));
        }
    }
    assert forall|i: int, k: int|
        0 <= i < p.log().len() && 0 <= k < p.log().len() && (#[trigger] p.log()[i]).job == j && (
        #[trigger] p.log()[k]).job == j implies i == k by {
        if i < k {
            assert(p.log()[i].job != p.log()[k].job);
        }
        if k < i {
            assert(p.log()[k].job != p.log()[i].job);
        }
    }
}

/// Availability. While any job is still queued, at least one worker is
/// alive to claim it: the pool never strands submitted work with no worker
/// left, in any phase.
pub proof fn lemma_pending_work_has_a_live_worker(p: ThreadPool)
    requires
        p.wf(),
        p.pending().len() > 0,
    ensures
        exists|w: int| 0 <= w < p.worker_count() && p.worker_alive(w),
{
    if !(exists|w: int| 0 <= w < p.worker_count() && p.worker_alive(w)) {
        assert forall|w: int| 0 <= w < p.worker_count() implies !(
        #[trigger] p.workers@[w]).alive by {
            if p.workers@[w].alive {
                assert(p.worker_alive(w));
            }
        }
        assert(p.pending().len() == 0);
    }
}

/// The drain guarantee at shutdown. Once teardown has completed, no worker
/// is alive, the queue is empty, and every job ever submitted has been
/// executed: submitted work is never discarded.
pub proof fn lemma_teardown_drained(p: ThreadPool)
    requires
        p.wf(),
        p.spec_phase() is Terminated,
    ensures
        forall|w: int| 0 <= w < p.worker_count() ==> !p.worker_alive(w),
        p.pending().len() == 0,
        forall|j: u64| j < p.submitted() ==> #[trigger] p.executed_ids().contains(j),
{
    assert forall|w: int| 0 <= w < p.worker_count() implies !p.worker_alive(w) by {
        assert(!p.workers@[w].alive);
    }
    assert forall|j: u64| j < p.submitted() implies #[trigger] p.executed_ids().contains(j) by {
        assert(p.placed(j));
        if p.pending().contains(j) {
            let i = choose|i: int| 0 <= i < p.pending().len() && p.pending()[i] == j;
            assert(false);
        } else if p.held_by_some_worker(j) {
            let w = choose|w: int| 0 <= w < p.worker_count() && p.in_flight_of(w) == Some(j);
            assert(!p.workers@[w].alive);
            assert(p.in_flight_of(w) is None);
            assert(false);
        }
    }
}

} // verus!
