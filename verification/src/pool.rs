//! The worker pool's policy: a fixed worker count, a queue served in
//! arrival order, and failure isolation.
//!
//! The executors themselves (threads, their scheduling) live outside;
//! this state decides everything the pool promises: at most as many
//! jobs run at once as there are workers, waiting jobs leave the queue
//! oldest first with none lost or duplicated, and a job that fails
//! hands its worker back.

use vstd::prelude::*;

verus! {

/// The pool's bookkeeping, as mathematics: worker count, jobs running,
/// jobs waiting oldest first.
#[verifier::ext_equal]
pub struct PoolModel<T> {
    pub workers: int,
    pub running: int,
    pub queue: Seq<T>,
}

/// The pool's invariant: at least one worker, and never more running
/// jobs than workers.
pub open spec fn model_wf<T>(p: PoolModel<T>) -> bool {
    1 <= p.workers && 0 <= p.running <= p.workers
}

/// The pool after accepting one job: it waits at the end of the queue.
pub open spec fn model_submit<T>(p: PoolModel<T>, job: T) -> PoolModel<T> {
    PoolModel { workers: p.workers, running: p.running, queue: p.queue.push(job) }
}

/// Whether a waiting job can start now: a worker is free and a job
/// waits.
pub open spec fn model_can_start<T>(p: PoolModel<T>) -> bool {
    p.running < p.workers && p.queue.len() > 0
}

/// The pool after the oldest waiting job starts.
pub open spec fn model_start<T>(p: PoolModel<T>) -> PoolModel<T> {
    PoolModel { workers: p.workers, running: p.running + 1, queue: p.queue.drop_first() }
}

/// The pool after a running job ends, well or badly: its worker is free
/// again either way.
pub open spec fn model_finish<T>(p: PoolModel<T>) -> PoolModel<T> {
    PoolModel { workers: p.workers, running: p.running - 1, queue: p.queue }
}

/// The pool's working state. Jobs are whatever a connection needs; the
/// pool only schedules them.
pub struct PoolState<T> {
    workers: usize,
    running: usize,
    queue: Vec<T>,
}

impl<T> View for PoolState<T> {
    type V = PoolModel<T>;

    closed spec fn view(&self) -> PoolModel<T> {
        PoolModel { workers: self.workers as int, running: self.running as int, queue: self.queue@ }
    }
}

impl<T> PoolState<T> {
    /// A pool of `workers` workers, all idle, nothing waiting.
    pub fn new(workers: usize) -> (p: PoolState<T>)
        requires
            1 <= workers,
        ensures
            model_wf(p@),
            p@.workers == workers,
            p@.running == 0,
            p@.queue == Seq::<T>::empty(),
    {
        let p = PoolState { workers, running: 0, queue: Vec::new() };
        proof {
            assert(p@.queue =~= Seq::<T>::empty());
        }
        p
    }

    /// Accepts a job; it waits its turn. Submission never blocks and
    /// never displaces an earlier job.
    pub fn submit(&mut self, job: T)
        requires
            model_wf(old(self)@),
        ensures
            model_wf(final(self)@),
            final(self)@ == model_submit(old(self)@, job),
    {
        self.queue.push(job);
        proof {
            assert(final(self)@ =~= model_submit(old(self)@, job));
        }
    }

    /// Hands the oldest waiting job to a free worker, if the pool has
    /// both: the job leaves the queue and counts as running.
    pub fn try_start(&mut self) -> (r: Option<T>)
        requires
            model_wf(old(self)@),
        ensures
            model_wf(final(self)@),
            (match r {
                Some(job) => model_can_start(old(self)@) && job == old(self)@.queue[0]
                    && final(self)@ == model_start(old(self)@),
                None => !model_can_start(old(self)@) && final(self)@ == old(self)@,
            }),
    {
        if self.running < self.workers && self.queue.len() > 0 {
            let job = self.queue.remove(0);
            self.running = self.running + 1;
            proof {
                assert(self.queue@ =~= old(self)@.queue.drop_first());
                assert(final(self)@ =~= model_start(old(self)@));
            }
            Some(job)
        } else {
            None
        }
    }

    /// How many jobs run right now.
    pub fn running(&self) -> (n: usize)
        ensures
            n as int == self@.running,
    {
        self.running
    }

    /// Takes back the worker of a job that ended, whether it succeeded
    /// or failed: one failing job never costs the pool a worker, and
    /// the jobs still waiting are untouched.
    pub fn finish(&mut self, _failed: bool)
        requires
            model_wf(old(self)@),
            old(self)@.running >= 1,
        ensures
            model_wf(final(self)@),
            final(self)@ == model_finish(old(self)@),
    {
        self.running = self.running - 1;
        proof {
            assert(final(self)@ =~= model_finish(old(self)@));
        }
    }
}

/// Every transition keeps the pool sound: no more running jobs than
/// workers, submission displaces nothing, and a start always takes the
/// oldest waiting job, so jobs start in arrival order.
pub proof fn lemma_pool_transitions_keep_wf<T>(p: PoolModel<T>, job: T)
    requires
        model_wf(p),
    ensures
        model_wf(model_submit(p, job)),
        model_submit(p, job).queue == p.queue.push(job),
        model_can_start(p) ==> model_wf(model_start(p)) && model_start(p).queue == p.queue.drop_first(),
        p.running >= 1 ==> model_wf(model_finish(p)),
{
}

/// A failing job is isolated: finishing it, well or badly, frees its
/// worker, and a job still waiting can then start.
pub proof fn lemma_pool_failure_isolated<T>(p: PoolModel<T>)
    requires
        model_wf(p),
        p.running >= 1,
    ensures
        model_wf(model_finish(p)),
        model_finish(p).queue.len() > 0 ==> model_can_start(model_finish(p)),
{
}

/// With a single worker, two jobs submitted together are both served:
/// the first starts at once, the second waits while the first runs, and
/// when the first ends — even by failing — the worker comes back and
/// serves the second, in submission order.
pub proof fn lemma_pool_of_one_serves_two<T>(p: PoolModel<T>, j1: T, j2: T)
    requires
        model_wf(p),
        p.workers == 1,
        p.running == 0,
        p.queue.len() == 0,
    ensures
        ({
            let p2 = model_submit(model_submit(p, j1), j2);
            let p3 = model_start(p2);
            let p4 = model_finish(p3);
            model_can_start(p2) && p2.queue[0] == j1 && !model_can_start(p3) && model_can_start(p4)
                && p4.queue[0] == j2 && model_start(p4).queue.len() == 0
        }),
{
    let p2 = model_submit(model_submit(p, j1), j2);
    assert(p2.queue =~= seq![j1, j2]);
    let p3 = model_start(p2);
    assert(p3.queue =~= seq![j2]);
    let p4 = model_finish(p3);
    assert(model_start(p4).queue =~= Seq::<T>::empty());
}

/// The pool after the oldest `k` waiting jobs start, one by one.
pub open spec fn pool_after_starts<T>(p: PoolModel<T>, k: int) -> PoolModel<T>
    decreases k,
{
    if k <= 0 {
        p
    } else {
        pool_after_starts(model_start(p), k - 1)
    }
}

/// Free workers are genuinely used: with `k` workers free and at least
/// `k` jobs waiting, `k` starts leave `k` more jobs running at once. In
/// particular a pool of `C` idle workers runs `C` waiting connections
/// concurrently.
pub proof fn lemma_pool_reaches_capacity<T>(p: PoolModel<T>, k: int)
    requires
        model_wf(p),
        0 <= k <= p.workers - p.running,
        k <= p.queue.len(),
    ensures
        pool_after_starts(p, k).running == p.running + k,
        model_wf(pool_after_starts(p, k)),
    decreases k,
{
    if k > 0 {
        lemma_pool_reaches_capacity(model_start(p), k - 1);
    }
}

/// Relies on `num_cpus::get`: the number of available processing units
/// of the current system, documented to always be at least one.
#[verifier::external_body]
fn available_parallelism_units() -> (n: usize)
    ensures
        1 <= n,
{
    num_cpus::get()
}

/// The worker count a server starts with: one worker for each available
/// processing unit, read once at startup and fixed from then on.
pub fn default_worker_count() -> (n: usize)
    ensures
        1 <= n,
{
    available_parallelism_units()
}

} // verus!
