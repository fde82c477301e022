use std::collections::VecDeque;
use vstd::prelude::*;

verus! {

/// Where a worker stands in its receive/run loop.
#[derive(PartialEq, Eq, Structural, Clone, Copy, Debug)]
pub enum WorkerState {
    /// Waiting on the queue for a job.
    Idle,
    /// Executing a job that it dequeued.
    Running,
    /// Left its loop after the pool was shut down and the queue drained.
    Stopped,
}

/// How a job ended; the worker returns to `Idle` either way.
#[derive(PartialEq, Eq, Structural, Clone, Copy, Debug)]
pub enum JobOutcome {
    Completed,
    Failed,
}

/// What became of a submitted job.
pub enum Submission<T> {
    /// The job is in the queue.
    Queued,
    /// The queue is at capacity: the job is handed back, and the producer waits
    /// for a worker to free a slot before submitting it again.
    Full(T),
    /// The pool is shut down: the job is handed back and will never run.
    Closed(T),
}

/// What a worker that asks for work is told to do.
pub enum Assignment<T> {
    /// Execute this job, the oldest one in the queue.
    Run(T),
    /// The queue is empty: wait until a job is submitted.
    Wait,
    /// The pool is shut down and the queue is drained: leave the loop.
    Stop,
}

/// The abstract state of a pool, with the history of what went through it.
pub ghost struct PoolModel<T> {
    /// The fixed bound on the number of queued jobs.
    pub capacity: nat,
    /// Jobs accepted and not yet dequeued, oldest first.
    pub queue: Seq<T>,
    /// The state of each worker, by id.
    pub workers: Seq<WorkerState>,
    /// Whether submissions are still accepted.
    pub open: bool,
    /// Every job ever accepted, in the order of acceptance.
    pub submitted: Seq<T>,
    /// Every job ever dequeued by a worker, in the order of dequeue.
    pub started: Seq<T>,
    /// How many dequeued jobs have ended, successfully or not.
    pub finished: nat,
}

/// The number of workers of `ws` that are executing a job.
pub open spec fn running_count(ws: Seq<WorkerState>) -> nat
    decreases ws.len(),
{
    if ws.len() == 0 {
        0
    } else {
        running_count(ws.drop_last()) + if ws.last() == WorkerState::Running {
            1nat
        } else {
            0nat
        }
    }
}

impl<T> PoolModel<T> {
    /// A freshly created pool of `size` idle workers and a queue of capacity `size`.
    pub open spec fn initial(size: nat) -> PoolModel<T> {
        PoolModel {
            capacity: size,
            queue: Seq::empty(),
            workers: Seq::new(size, |i: int| WorkerState::Idle),
            open: true,
            submitted: Seq::empty(),
            started: Seq::empty(),
            finished: 0,
        }
    }

    /// The invariant of every reachable state: at least one worker, the queue
    /// within its bound, each accepted job either dequeued once or still queued,
    /// and each dequeued job either ended or held by a running worker.
    pub open spec fn wf(self) -> bool {
        &&& self.capacity >= 1
        &&& self.workers.len() >= 1
        &&& self.queue.len() <= self.capacity
        &&& self.started + self.queue == self.submitted
        &&& self.finished + running_count(self.workers) == self.started.len()
        &&& (self.open ==> forall|i: int|
            0 <= i < self.workers.len() ==> self.workers[i] != WorkerState::Stopped)
    }

    /// Whether a job submitted now is accepted.
    pub open spec fn accepts(self) -> bool {
        self.open && self.queue.len() < self.capacity
    }

    pub open spec fn submit_result(self, job: T) -> Submission<T> {
        if !self.open {
            Submission::Closed(job)
        } else if self.queue.len() < self.capacity {
            Submission::Queued
        } else {
            Submission::Full(job)
        }
    }

    pub open spec fn after_submit(self, job: T) -> PoolModel<T> {
        if self.accepts() {
            PoolModel { queue: self.queue.push(job), submitted: self.submitted.push(job), ..self }
        } else {
            self
        }
    }

    /// Whether worker `id` may ask for a job: it exists and is idle.
    pub open spec fn may_take(self, id: int) -> bool {
        0 <= id < self.workers.len() && self.workers[id] == WorkerState::Idle
    }

    pub open spec fn take_result(self, id: int) -> Assignment<T> {
        if self.queue.len() > 0 {
            Assignment::Run(self.queue[0])
        } else if !self.open {
            Assignment::Stop
        } else {
            Assignment::Wait
        }
    }

    pub open spec fn after_take(self, id: int) -> PoolModel<T> {
        if self.queue.len() > 0 {
            PoolModel {
                queue: self.queue.drop_first(),
                started: self.started.push(self.queue[0]),
                workers: self.workers.update(id, WorkerState::Running),
                ..self
            }
        } else if !self.open {
            PoolModel { workers: self.workers.update(id, WorkerState::Stopped), ..self }
        } else {
            self
        }
    }

    /// Whether worker `id` may report the end of a job: it exists and is running.
    pub open spec fn may_finish(self, id: int) -> bool {
        0 <= id < self.workers.len() && self.workers[id] == WorkerState::Running
    }

    /// The worker returns to `Idle` whatever the outcome: a failing job costs
    /// the pool no worker.
    pub open spec fn after_finish(self, id: int, outcome: JobOutcome) -> PoolModel<T> {
        PoolModel {
            workers: self.workers.update(id, WorkerState::Idle),
            finished: self.finished + 1,
            ..self
        }
    }

    pub open spec fn after_close(self) -> PoolModel<T> {
        PoolModel { open: false, ..self }
    }

    /// The state after submitting each of `jobs` in turn, with no dequeue between.
    pub open spec fn after_submit_all(self, jobs: Seq<T>) -> PoolModel<T>
        decreases jobs.len(),
    {
        if jobs.len() == 0 {
            self
        } else {
            self.after_submit_all(jobs.drop_last()).after_submit(jobs.last())
        }
    }
}


proof fn lemma_running_count_update(ws: Seq<WorkerState>, i: int, s: WorkerState)
    requires
        0 <= i < ws.len(),
    ensures
        running_count(ws.update(i, s)) + (if ws[i] == WorkerState::Running {
            1nat
        } else {
            0nat
        }) == running_count(ws) + (if s == WorkerState::Running {
            1nat
        } else {
            0nat
        }),
    decreases ws.len(),
{
    let u = ws.update(i, s);
    assert(u.drop_last() =~= if i == ws.len() - 1 {
        ws.drop_last()
    } else {
        ws.drop_last().update(i, s)
    });
    if i < ws.len() - 1 {
        lemma_running_count_update(ws.drop_last(), i, s);
    }
}

proof fn lemma_running_count_all_idle(n: nat)
    ensures
        running_count(Seq::new(n, |i: int| WorkerState::Idle)) == 0,
    decreases n,
{
    if n > 0 {
        let ws = Seq::new(n, |i: int| WorkerState::Idle);
        assert(ws.drop_last() =~= Seq::new((n - 1) as nat, |i: int| WorkerState::Idle));
        lemma_running_count_all_idle((n - 1) as nat);
    }
}

proof fn lemma_running_count_none(ws: Seq<WorkerState>)
    requires
        forall|i: int| 0 <= i < ws.len() ==> ws[i] != WorkerState::Running,
    ensures
        running_count(ws) == 0,
    decreases ws.len(),
{
    if ws.len() > 0 {
        lemma_running_count_none(ws.drop_last());
    }
}

proof fn lemma_running_count_le(ws: Seq<WorkerState>)
    ensures
        running_count(ws) <= ws.len(),
    decreases ws.len(),
{
    if ws.len() > 0 {
        lemma_running_count_le(ws.drop_last());
    }
}

impl<T> PoolModel<T> {
    /// Every transition keeps the invariant.
    pub proof fn lemma_transitions_keep_wf(self, job: T, id: int, outcome: JobOutcome)
        requires
            self.wf(),
        ensures
            self.after_submit(job).wf(),
            self.may_take(id) ==> self.after_take(id).wf(),
            self.may_finish(id) ==> self.after_finish(id, outcome).wf(),
            self.after_close().wf(),
    {
        if self.accepts() {
            let m = self.after_submit(job);
            assert(m.started + m.queue =~= m.submitted);
        }
        if self.may_take(id) {
            let m = self.after_take(id);
            lemma_running_count_update(self.workers, id, WorkerState::Running);
            lemma_running_count_update(self.workers, id, WorkerState::Stopped);
            if self.queue.len() > 0 {
                assert(m.started + m.queue =~= m.submitted) by {
                    assert(self.queue =~= seq![self.queue[0]] + self.queue.drop_first());
                    assert(self.started + self.queue =~= self.started.push(self.queue[0])
                        + self.queue.drop_first());
                }
            }
            assert forall|i: int| m.open && 0 <= i < m.workers.len() implies m.workers[i]
                != WorkerState::Stopped by {}
        }
        if self.may_finish(id) {
            lemma_running_count_update(self.workers, id, WorkerState::Idle);
            let m = self.after_finish(id, outcome);
            assert forall|i: int| m.open && 0 <= i < m.workers.len() implies m.workers[i]
                != WorkerState::Stopped by {}
        }
    }
}

impl<T> PoolModel<T> {
    proof fn lemma_submit_prefix(self, jobs: Seq<T>, i: int)
        requires
            self.wf(),
            self.open,
            self.queue.len() == 0,
            0 <= i <= jobs.len(),
            i <= self.capacity,
        ensures
            self.after_submit_all(jobs.take(i)).queue == jobs.take(i),
            self.after_submit_all(jobs.take(i)).open,
            self.after_submit_all(jobs.take(i)).capacity == self.capacity,
        decreases i,
    {
        if i == 0 {
            assert(jobs.take(0) =~= Seq::<T>::empty());
        } else {
            self.lemma_submit_prefix(jobs, i - 1);
            assert(jobs.take(i).drop_last() =~= jobs.take(i - 1));
            assert(jobs.take(i - 1).push(jobs[i - 1]) =~= jobs.take(i));
        }
    }

    /// Backpressure: with every worker busy and the queue empty, the first
    /// `capacity` submissions are accepted at once, and the next one is handed
    /// back to wait for a free slot.
    pub proof fn lemma_backpressure(self, jobs: Seq<T>)
        requires
            self.wf(),
            self.open,
            self.queue.len() == 0,
            forall|w: int| 0 <= w < self.workers.len() ==> self.workers[w] == WorkerState::Running,
            jobs.len() == self.capacity + 1,
        ensures
            forall|i: int|
                0 <= i < self.capacity ==> self.after_submit_all(jobs.take(i)).submit_result(jobs[i])
                    == Submission::<T>::Queued,
            self.after_submit_all(jobs.take(self.capacity as int)).submit_result(
                jobs[self.capacity as int],
            ) == Submission::Full(jobs[self.capacity as int]),
            self.after_submit_all(jobs.take(self.capacity as int)).queue == jobs.take(
                self.capacity as int,
            ),
    {
        assert forall|i: int|
            0 <= i < self.capacity implies self.after_submit_all(jobs.take(i)).submit_result(
            jobs[i],
        ) == Submission::<T>::Queued by {
            self.lemma_submit_prefix(jobs, i);
        }
        self.lemma_submit_prefix(jobs, self.capacity as int);
    }

    /// FIFO: jobs are dequeued in the order in which they were accepted, each
    /// worker that asks is handed the oldest job not yet dequeued, and with a
    /// single worker at most one job is in flight, so jobs also run one after
    /// the other in that order.
    pub proof fn lemma_fifo_order(self, id: int)
        requires
            self.wf(),
        ensures
            self.started == self.submitted.take(self.started.len() as int),
            self.may_take(id) && self.queue.len() > 0 ==> self.take_result(id) == Assignment::Run(
                self.submitted[self.started.len() as int],
            ),
            self.may_take(id) && self.queue.len() > 0 ==> self.after_take(id).started
                == self.submitted.take(self.started.len() + 1 as int),
            self.workers.len() == 1 ==> self.started.len() <= self.finished + 1,
    {
        assert(self.started =~= self.submitted.take(self.started.len() as int));
        if self.queue.len() > 0 {
            assert(self.submitted[self.started.len() as int] == self.queue[0]);
            assert(self.started.push(self.queue[0]) =~= self.submitted.take(
                self.started.len() + 1 as int,
            ));
        }
        lemma_running_count_le(self.workers);
    }

    /// Exactly-once delivery: once the queue is empty and no worker is running,
    /// every accepted job has been dequeued once, in order, and has ended once.
    pub proof fn lemma_exactly_once(self)
        requires
            self.wf(),
            self.queue.len() == 0,
            forall|w: int| 0 <= w < self.workers.len() ==> self.workers[w] != WorkerState::Running,
        ensures
            self.started == self.submitted,
            self.finished == self.submitted.len(),
    {
        assert(self.started =~= self.submitted);
        lemma_running_count_none(self.workers);
    }

    /// Fault isolation: a worker whose job failed is idle again, and a job
    /// submitted afterwards to an empty open queue is handed to it and can end.
    pub proof fn lemma_fault_isolation(self, id: int, job: T)
        requires
            self.wf(),
            self.open,
            self.queue.len() == 0,
            self.may_finish(id),
        ensures
            ({
                let failed = self.after_finish(id, JobOutcome::Failed);
                let queued = failed.after_submit(job);
                let taken = queued.after_take(id);
                &&& failed.wf()
                &&& failed.workers[id] == WorkerState::Idle
                &&& failed.submit_result(job) == Submission::<T>::Queued
                &&& queued.may_take(id)
                &&& queued.take_result(id) == Assignment::Run(job)
                &&& taken.may_finish(id)
                &&& taken.after_finish(id, JobOutcome::Completed).finished == self.finished + 2
            }),
    {
        let failed = self.after_finish(id, JobOutcome::Failed);
        self.lemma_transitions_keep_wf(job, id, JobOutcome::Failed);
        failed.lemma_transitions_keep_wf(job, id, JobOutcome::Failed);
    }
}

/// The pool's scheduling state: a bounded FIFO queue of jobs of type `T`, shared
/// by the producers and a fixed set of workers, with the state of each worker.
///
/// Every decision of the pool is a method here; the caller holds this state under
/// its lock, performs the decision (blocks, runs the job, wakes a waiter), and
/// reports back.
pub struct PoolState<T> {
    capacity: usize,
    queue: VecDeque<T>,
    workers: Vec<WorkerState>,
    open: bool,
    submitted: Ghost<Seq<T>>,
    started: Ghost<Seq<T>>,
    finished: Ghost<nat>,
}

impl<T> View for PoolState<T> {
    type V = PoolModel<T>;

    closed spec fn view(&self) -> PoolModel<T> {
        PoolModel {
            capacity: self.capacity as nat,
            queue: self.queue@,
            workers: self.workers@,
            open: self.open,
            submitted: self.submitted@,
            started: self.started@,
            finished: self.finished@,
        }
    }
}

impl<T> PoolState<T> {
    pub open spec fn wf(&self) -> bool {
        self@.wf()
    }

    /// A pool of `size` idle workers whose queue holds at most `size` jobs.
    /// A pool without workers could never drain its queue, so `size` is at least one.
    pub fn new(size: usize) -> (r: PoolState<T>)
        requires
            size >= 1,
        ensures
            r@ == PoolModel::<T>::initial(size as nat),
            r.wf(),
    {
        let mut workers: Vec<WorkerState> = Vec::with_capacity(size);
        let mut id: usize = 0;
        while id < size
            invariant
                id <= size,
                workers@ == Seq::new(id as nat, |i: int| WorkerState::Idle),
            decreases size - id,
        {
            workers.push(WorkerState::Idle);
            id = id + 1;
            assert(workers@ =~= Seq::new(id as nat, |i: int| WorkerState::Idle));
        }
        let r = PoolState {
            capacity: size,
            queue: VecDeque::new(),
            workers,
            open: true,
            submitted: Ghost(Seq::empty()),
            started: Ghost(Seq::empty()),
            finished: Ghost(0),
        };
        proof {
            lemma_running_count_all_idle(size as nat);
            assert(r@.started + r@.queue =~= r@.submitted);
        }
        r
    }

    /// Offers `job` to the queue. It is accepted while the pool is open and the
    /// queue holds fewer than `capacity` jobs; otherwise it is handed back.
    pub fn submit(&mut self, job: T) -> (r: Submission<T>)
        requires
            old(self).wf(),
        ensures
            final(self).wf(),
            final(self)@ == old(self)@.after_submit(job),
            r == old(self)@.submit_result(job),
    {
        proof {
            self@.lemma_transitions_keep_wf(job, 0, JobOutcome::Completed);
        }
        if !self.open {
            Submission::Closed(job)
        } else if self.queue.len() < self.capacity {
            proof {
                self.submitted@ = self.submitted@.push(job);
            }
            self.queue.push_back(job);
            Submission::Queued
        } else {
            Submission::Full(job)
        }
    }

    /// Worker `id`, idle, asks for work: it gets the oldest queued job, or is told
    /// to wait, or, once the pool is shut down and the queue drained, to stop.
    pub fn take(&mut self, id: usize) -> (r: Assignment<T>)
        requires
            old(self).wf(),
            old(self)@.may_take(id as int),
        ensures
            final(self).wf(),
            final(self)@ == old(self)@.after_take(id as int),
            r == old(self)@.take_result(id as int),
    {
        proof {
            self@.lemma_transitions_keep_wf(arbitrary(), id as int, JobOutcome::Completed);
        }
        match self.queue.pop_front() {
            Some(job) => {
                proof {
                    self.started@ = self.started@.push(job);
                }
                self.workers.set(id, WorkerState::Running);
                Assignment::Run(job)
            },
            None => {
                if self.open {
                    Assignment::Wait
                } else {
                    self.workers.set(id, WorkerState::Stopped);
                    Assignment::Stop
                }
            },
        }
    }

    /// Worker `id` reports that its job ended, successfully or not; it is idle again.
    pub fn finish(&mut self, id: usize, outcome: JobOutcome)
        requires
            old(self).wf(),
            old(self)@.may_finish(id as int),
        ensures
            final(self).wf(),
            final(self)@ == old(self)@.after_finish(id as int, outcome),
    {
        proof {
            self@.lemma_transitions_keep_wf(arbitrary(), id as int, outcome);
            self.finished@ = self.finished@ + 1;
        }
        self.workers.set(id, WorkerState::Idle);
    }

    /// Shuts the pool down: no job is accepted any more, and each worker stops
    /// once the queue is drained.
    pub fn close(&mut self)
        requires
            old(self).wf(),
        ensures
            final(self).wf(),
            final(self)@ == old(self)@.after_close(),
    {
        proof {
            self@.lemma_transitions_keep_wf(arbitrary(), 0, JobOutcome::Completed);
        }
        self.open = false;
    }

    /// The number of workers.
    pub fn size(&self) -> (r: usize)
        ensures
            r == self@.workers.len(),
    {
        self.workers.len()
    }

    /// The bound on the number of queued jobs.
    pub fn capacity(&self) -> (r: usize)
        ensures
            r == self@.capacity,
    {
        self.capacity
    }

    /// The number of jobs waiting in the queue.
    pub fn queued(&self) -> (r: usize)
        ensures
            r == self@.queue.len(),
    {
        self.queue.len()
    }

    /// Whether submissions are still accepted.
    pub fn is_open(&self) -> (r: bool)
        ensures
            r == self@.open,
    {
        self.open
    }

    /// The state of worker `id`, or `None` when there is no such worker.
    pub fn worker_state(&self, id: usize) -> (r: Option<WorkerState>)
        ensures
            r == if id < self@.workers.len() {
                Some(self@.workers[id as int])
            } else {
                None::<WorkerState>
            },
    {
        if id < self.workers.len() {
            Some(self.workers[id])
        } else {
            None
        }
    }
}

} // verus!
