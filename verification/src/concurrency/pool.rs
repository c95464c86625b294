//! The decision core of the crash-isolating worker pool.
//!
//! `PoolState` records which jobs are queued, what each worker is doing,
//! and which jobs finished or died with their worker.  Its transitions are
//! the pool's rules: a submitted job is queued; an idle worker claims the
//! front of the queue; a worker that finishes goes back to idle; a worker
//! whose job fails unrecoverably marks itself dead without touching the
//! others; the monitor replaces every dead worker with a fresh idle one,
//! keeping capacity constant.  The threads, the unwinding boundary, and
//! the monitor's clock live in the embedding program, which drives one
//! transition per event.
//!
//! The invariant is the pool's central promise: every submitted job sits
//! in exactly one place — queued, running, done, or crashed — so each job
//! runs exactly once.

use vstd::multiset::Multiset;
use vstd::prelude::*;
use vstd::seq_lib::group_to_multiset_ensures;

verus! {

broadcast use group_to_multiset_ensures;

/// The lifecycle of one worker: `Idle -> Running -> (Idle | Dead)`; a dead
/// worker leaves only by monitor-driven replacement with a fresh one.
#[derive(Debug, Clone, Copy, PartialEq, Eq, Structural)]
pub enum WorkerState {
    Idle,
    Running { job: u64 },
    Dead,
}

/// The job a running worker holds (zero for the others; callers guard).
pub open spec fn running_job(w: WorkerState) -> u64 {
    match w {
        WorkerState::Running { job } => job,
        _ => 0,
    }
}

/// The jobs a worker contributes to the accounting: one if running.
pub open spec fn job_of(w: WorkerState) -> Multiset<u64> {
    match w {
        WorkerState::Running { job } => Multiset::empty().insert(job),
        _ => Multiset::empty(),
    }
}

/// All jobs currently held by workers.
pub open spec fn workers_jobs(ws: Seq<WorkerState>) -> Multiset<u64>
    decreases ws.len(),
{
    if ws.len() == 0 {
        Multiset::empty()
    } else {
        workers_jobs(ws.drop_last()).add(job_of(ws.last()))
    }
}

proof fn lemma_workers_jobs_update(ws: Seq<WorkerState>, i: int, v: WorkerState)
    requires
        0 <= i < ws.len(),
    ensures
        workers_jobs(ws.update(i, v)).add(job_of(ws[i])) =~= workers_jobs(ws).add(job_of(v)),
    decreases ws.len(),
{
    if i == ws.len() - 1 {
        assert(ws.update(i, v).drop_last() =~= ws.drop_last());
        assert(ws.update(i, v).last() == v);
        assert(workers_jobs(ws.update(i, v)) == workers_jobs(ws.drop_last()).add(job_of(v)));
        assert(workers_jobs(ws) == workers_jobs(ws.drop_last()).add(job_of(ws.last())));
        assert(ws[i] == ws.last());
        assert forall|x: u64|
            workers_jobs(ws.update(i, v)).add(job_of(ws[i])).count(x) == workers_jobs(ws).add(
                job_of(v),
            ).count(x) by {}
        assert(workers_jobs(ws.update(i, v)).add(job_of(ws[i])) =~= workers_jobs(ws).add(
            job_of(v),
        ));
    } else {
        let dl = ws.drop_last();
        lemma_workers_jobs_update(dl, i, v);
        assert(ws.update(i, v).drop_last() =~= dl.update(i, v));
        assert(ws.update(i, v).last() == ws.last());
        assert(workers_jobs(ws.update(i, v)) == workers_jobs(dl.update(i, v)).add(
            job_of(ws.last()),
        ));
        assert(workers_jobs(ws) == workers_jobs(dl).add(job_of(ws.last())));
        assert(dl[i] == ws[i]);
        assert forall|x: u64|
            workers_jobs(ws.update(i, v)).add(job_of(ws[i])).count(x) == workers_jobs(ws).add(
                job_of(v),
            ).count(x) by {
            assert(workers_jobs(dl.update(i, v)).add(job_of(dl[i])).count(x) == workers_jobs(
                dl,
            ).add(job_of(v)).count(x));
        }
        assert(workers_jobs(ws.update(i, v)).add(job_of(ws[i])) =~= workers_jobs(ws).add(
            job_of(v),
        ));
    }
}

proof fn lemma_workers_jobs_none_running(ws: Seq<WorkerState>)
    requires
        forall|i: int| 0 <= i < ws.len() ==> !((#[trigger] ws[i]) is Running),
    ensures
        workers_jobs(ws) =~= Multiset::<u64>::empty(),
    decreases ws.len(),
{
    if ws.len() > 0 {
        assert(!(ws[ws.len() - 1] is Running));
        assert forall|i: int| 0 <= i < ws.drop_last().len() implies !((
        #[trigger] ws.drop_last()[i]) is Running) by {
            assert(ws.drop_last()[i] == ws[i]);
        }
        lemma_workers_jobs_none_running(ws.drop_last());
    }
}

/// The multiset of all job identifiers below `n`: one of each.
pub open spec fn range_bag(n: u64) -> Multiset<u64>
    decreases n,
{
    if n == 0 {
        Multiset::empty()
    } else {
        range_bag((n - 1) as u64).insert((n - 1) as u64)
    }
}

proof fn lemma_range_bag_count(n: u64, id: u64)
    ensures
        range_bag(n).count(id) == if id < n {
            1int
        } else {
            0int
        },
    decreases n,
{
    if n > 0 {
        lemma_range_bag_count((n - 1) as u64, id);
    }
}

/// The worker pool's bookkeeping state: the queue of pending jobs, every
/// worker's state, and the jobs that ran to completion or crashed their
/// worker.  Job identifiers are handed out by `submit`.
pub struct PoolState {
    workers: Vec<WorkerState>,
    queue: Vec<u64>,
    done: Vec<u64>,
    crashed: Vec<u64>,
    next_job: u64,
    shutting_down: bool,
}

impl PoolState {
    /// Every job anywhere in the pool, counted with multiplicity.
    pub closed spec fn job_bag(&self) -> Multiset<u64> {
        self.queue@.to_multiset().add(workers_jobs(self.workers@)).add(
            self.done@.to_multiset(),
        ).add(self.crashed@.to_multiset())
    }

    /// The pool's invariant: the jobs in the queue, on the workers, done,
    /// and crashed are exactly the submitted ones, each exactly once.
    pub closed spec fn inv(&self) -> bool {
        self.job_bag() == range_bag(self.next_job)
    }

    pub closed spec fn spec_workers(&self) -> Seq<WorkerState> {
        self.workers@
    }

    pub closed spec fn spec_worker_count(&self) -> nat {
        self.workers@.len()
    }

    pub closed spec fn spec_queue(&self) -> Seq<u64> {
        self.queue@
    }

    pub closed spec fn spec_done(&self) -> Seq<u64> {
        self.done@
    }

    pub closed spec fn spec_crashed(&self) -> Seq<u64> {
        self.crashed@
    }

    pub closed spec fn spec_next_job(&self) -> u64 {
        self.next_job
    }

    /// Whether the shutdown signal has been given.  From then on no new
    /// job is accepted; workers drain the queue and then stop.
    pub closed spec fn spec_shutting_down(&self) -> bool {
        self.shutting_down
    }

    /// A pool of `worker_count` idle workers and an empty queue.
    pub fn new(worker_count: usize) -> (r: PoolState)
        ensures
            r.inv(),
            r.spec_worker_count() == worker_count,
            forall|i: int| 0 <= i < worker_count ==> r.spec_workers()[i] == WorkerState::Idle,
            r.spec_queue() == Seq::<u64>::empty(),
            r.spec_done() == Seq::<u64>::empty(),
            r.spec_crashed() == Seq::<u64>::empty(),
            r.spec_next_job() == 0,
            !r.spec_shutting_down(),
    {
        let mut workers: Vec<WorkerState> = Vec::new();
        let mut i: usize = 0;
        while i < worker_count
            invariant
                i == workers@.len(),
                i <= worker_count,
                forall|j: int| 0 <= j < i ==> workers@[j] == WorkerState::Idle,
            decreases worker_count - i,
        {
            workers.push(WorkerState::Idle);
            i = i + 1;
        }
        let r = PoolState {
            workers,
            queue: Vec::new(),
            done: Vec::new(),
            crashed: Vec::new(),
            next_job: 0,
            shutting_down: false,
        };
        proof {
            assert forall|j: int| 0 <= j < r.workers@.len() implies !((
            #[trigger] r.workers@[j]) is Running) by {}
            lemma_workers_jobs_none_running(r.workers@);
            assert(Seq::<u64>::empty().to_multiset() =~= Multiset::<u64>::empty()) by {
                let s = Seq::<u64>::empty();
                assert forall|x: u64| s.to_multiset().count(x) == 0 by {
                    assert(!s.contains(x));
                }
            }
            assert(r.job_bag() =~= range_bag(0));
        }
        r
    }

    /// Enqueue one job and hand back its identifier; never blocks, and
    /// promises nothing about when or on which worker it will run.
    pub fn submit(&mut self) -> (r: u64)
        requires
            old(self).inv(),
            !old(self).spec_shutting_down(),
            old(self).spec_next_job() < u64::MAX,
        ensures
            final(self).inv(),
            r == old(self).spec_next_job(),
            final(self).spec_queue() == old(self).spec_queue().push(r),
            final(self).spec_next_job() == old(self).spec_next_job() + 1,
            final(self).spec_workers() == old(self).spec_workers(),
            final(self).spec_done() == old(self).spec_done(),
            final(self).spec_crashed() == old(self).spec_crashed(),
            final(self).spec_shutting_down() == old(self).spec_shutting_down(),
    {
        let id = self.next_job;
        self.queue.push(id);
        self.next_job = self.next_job + 1;
        proof {
            assert(self.job_bag() =~= range_bag(self.next_job));
        }
        id
    }

    /// An idle worker claims the job at the front of the queue.
    pub fn claim(&mut self, w: usize) -> (r: u64)
        requires
            old(self).inv(),
            w < old(self).spec_worker_count(),
            old(self).spec_workers()[w as int] == WorkerState::Idle,
            old(self).spec_queue().len() > 0,
        ensures
            final(self).inv(),
            r == old(self).spec_queue()[0],
            final(self).spec_queue() == old(self).spec_queue().remove(0),
            final(self).spec_workers() == old(self).spec_workers().update(
                w as int,
                WorkerState::Running { job: r },
            ),
            final(self).spec_done() == old(self).spec_done(),
            final(self).spec_crashed() == old(self).spec_crashed(),
            final(self).spec_next_job() == old(self).spec_next_job(),
            final(self).spec_shutting_down() == old(self).spec_shutting_down(),
    {
        let job = self.queue.remove(0);
        self.workers[w] = WorkerState::Running { job };
        proof {
            let pre = old(self).workers@;
            lemma_workers_jobs_update(pre, w as int, WorkerState::Running { job });
            assert forall|x: u64|
                workers_jobs(self.workers@).count(x) == workers_jobs(pre).insert(job).count(
                    x,
                ) by {
                assert(workers_jobs(pre.update(w as int, WorkerState::Running { job })).add(
                    job_of(pre[w as int]),
                ).count(x) == workers_jobs(pre).add(
                    job_of(WorkerState::Running { job }),
                ).count(x));
                assert(job_of(pre[w as int]).count(x) == 0);
            }
            assert(workers_jobs(self.workers@) =~= workers_jobs(pre).insert(job));
            assert(old(self).queue@.to_multiset().count(job) > 0) by {
                assert(old(self).queue@.contains(job));
            }
            assert(self.queue@.to_multiset() =~= old(self).queue@.to_multiset().remove(job));
            assert(self.job_bag() =~= range_bag(self.next_job));
        }
        job
    }

    /// The worker finished its job; it goes back to idle.
    pub fn complete(&mut self, w: usize)
        requires
            old(self).inv(),
            w < old(self).spec_worker_count(),
            old(self).spec_workers()[w as int] is Running,
        ensures
            final(self).inv(),
            final(self).spec_workers() == old(self).spec_workers().update(
                w as int,
                WorkerState::Idle,
            ),
            final(self).spec_done() == old(self).spec_done().push(
                running_job(old(self).spec_workers()[w as int]),
            ),
            final(self).spec_queue() == old(self).spec_queue(),
            final(self).spec_crashed() == old(self).spec_crashed(),
            final(self).spec_next_job() == old(self).spec_next_job(),
            final(self).spec_shutting_down() == old(self).spec_shutting_down(),
    {
        let job = match self.workers[w] {
            WorkerState::Running { job } => job,
            _ => 0,
        };
        self.workers[w] = WorkerState::Idle;
        self.done.push(job);
        proof {
            let pre = old(self).workers@;
            lemma_workers_jobs_update(pre, w as int, WorkerState::Idle);
            assert forall|x: u64|
                workers_jobs(pre).count(x) == workers_jobs(self.workers@).insert(job).count(
                    x,
                ) by {
                assert(workers_jobs(pre.update(w as int, WorkerState::Idle)).add(
                    job_of(pre[w as int]),
                ).count(x) == workers_jobs(pre).add(job_of(WorkerState::Idle)).count(x));
                assert(job_of(pre[w as int]).count(x) == Multiset::<u64>::empty().insert(
                    job,
                ).count(x));
            }
            assert(workers_jobs(pre) =~= workers_jobs(self.workers@).insert(job));
            assert(self.done@.to_multiset() =~= old(self).done@.to_multiset().insert(job));
            assert(self.job_bag() =~= range_bag(self.next_job));
        }
    }

    /// The worker's job failed unrecoverably: the worker marks itself dead
    /// and stops, without touching the queue or the other workers.
    pub fn crash(&mut self, w: usize)
        requires
            old(self).inv(),
            w < old(self).spec_worker_count(),
            old(self).spec_workers()[w as int] is Running,
        ensures
            final(self).inv(),
            final(self).spec_workers() == old(self).spec_workers().update(
                w as int,
                WorkerState::Dead,
            ),
            final(self).spec_crashed() == old(self).spec_crashed().push(
                running_job(old(self).spec_workers()[w as int]),
            ),
            final(self).spec_queue() == old(self).spec_queue(),
            final(self).spec_done() == old(self).spec_done(),
            final(self).spec_next_job() == old(self).spec_next_job(),
            final(self).spec_shutting_down() == old(self).spec_shutting_down(),
    {
        let job = match self.workers[w] {
            WorkerState::Running { job } => job,
            _ => 0,
        };
        self.workers[w] = WorkerState::Dead;
        self.crashed.push(job);
        proof {
            let pre = old(self).workers@;
            lemma_workers_jobs_update(pre, w as int, WorkerState::Dead);
            assert forall|x: u64|
                workers_jobs(pre).count(x) == workers_jobs(self.workers@).insert(job).count(
                    x,
                ) by {
                assert(workers_jobs(pre.update(w as int, WorkerState::Dead)).add(
                    job_of(pre[w as int]),
                ).count(x) == workers_jobs(pre).add(job_of(WorkerState::Dead)).count(x));
                assert(job_of(pre[w as int]).count(x) == Multiset::<u64>::empty().insert(
                    job,
                ).count(x));
            }
            assert(workers_jobs(pre) =~= workers_jobs(self.workers@).insert(job));
            assert(self.crashed@.to_multiset() =~= old(self).crashed@.to_multiset().insert(job));
            assert(self.job_bag() =~= range_bag(self.next_job));
        }
    }

    /// The monitor's pass: every dead worker is replaced by a fresh idle
    /// one.  Capacity is constant, no worker is left dead, and the queue
    /// and the records of done and crashed jobs are untouched.
    pub fn replace_dead(&mut self)
        requires
            old(self).inv(),
        ensures
            final(self).inv(),
            final(self).spec_worker_count() == old(self).spec_worker_count(),
            forall|i: int| 0 <= i < old(self).spec_worker_count()
                ==> final(self).spec_workers()[i] == (if old(self).spec_workers()[i]
                    is Dead {
                    WorkerState::Idle
                } else {
                    old(self).spec_workers()[i]
                }),
            forall|i: int| 0 <= i < final(self).spec_worker_count()
                ==> !(final(self).spec_workers()[i] is Dead),
            final(self).spec_queue() == old(self).spec_queue(),
            final(self).spec_done() == old(self).spec_done(),
            final(self).spec_crashed() == old(self).spec_crashed(),
            final(self).spec_next_job() == old(self).spec_next_job(),
            final(self).spec_shutting_down() == old(self).spec_shutting_down(),
    {
        let n = self.workers.len();
        let mut i: usize = 0;
        while i < n
            invariant
                0 <= i <= n,
                n == self.workers@.len(),
                workers_jobs(self.workers@) =~= workers_jobs(old(self).workers@),
                forall|j: int| 0 <= j < i ==> self.workers@[j] == (
                if old(self).workers@[j] is Dead {
                    WorkerState::Idle
                } else {
                    old(self).workers@[j]
                }),
                forall|j: int| i <= j < n ==> self.workers@[j] == old(self).workers@[j],
                self.queue == old(self).queue,
                self.done == old(self).done,
                self.crashed == old(self).crashed,
                self.next_job == old(self).next_job,
                self.shutting_down == old(self).shutting_down,
            decreases n - i,
        {
            let dead = match self.workers[i] {
                WorkerState::Dead => true,
                _ => false,
            };
            if dead {
                let ghost pre = self.workers@;
                self.workers[i] = WorkerState::Idle;
                proof {
                    lemma_workers_jobs_update(pre, i as int, WorkerState::Idle);
                    assert forall|x: u64|
                        workers_jobs(self.workers@).count(x) == workers_jobs(pre).count(
                            x,
                        ) by {
                        assert(workers_jobs(pre.update(i as int, WorkerState::Idle)).add(
                            job_of(pre[i as int]),
                        ).count(x) == workers_jobs(pre).add(
                            job_of(WorkerState::Idle),
                        ).count(x));
                        assert(job_of(pre[i as int]).count(x) == 0);
                    }
                    assert(workers_jobs(self.workers@) =~= workers_jobs(pre));
                }
            }
            i = i + 1;
        }
        proof {
            assert(self.job_bag() =~= range_bag(self.next_job));
        }
    }

    /// Give the shutdown signal: no further job is accepted; the workers
    /// drain what is queued and then stop.  The embedding program then
    /// unblocks waiting workers and joins every worker and the monitor.
    pub fn begin_shutdown(&mut self)
        requires
            old(self).inv(),
        ensures
            final(self).inv(),
            final(self).spec_shutting_down(),
            final(self).spec_workers() == old(self).spec_workers(),
            final(self).spec_queue() == old(self).spec_queue(),
            final(self).spec_done() == old(self).spec_done(),
            final(self).spec_crashed() == old(self).spec_crashed(),
            final(self).spec_next_job() == old(self).spec_next_job(),
    {
        self.shutting_down = true;
    }

    /// Whether the shutdown signal has been given.
    pub fn is_shutting_down(&self) -> (r: bool)
        ensures
            r == self.spec_shutting_down(),
    {
        self.shutting_down
    }

    /// How many workers the pool has (its fixed capacity).
    pub fn worker_count(&self) -> (r: usize)
        ensures
            r == self.spec_worker_count(),
    {
        self.workers.len()
    }

    /// One worker's current state.
    pub fn worker(&self, i: usize) -> (r: WorkerState)
        requires
            i < self.spec_worker_count(),
        ensures
            r == self.spec_workers()[i as int],
    {
        self.workers[i]
    }

    /// How many jobs are waiting.
    pub fn queue_len(&self) -> (r: usize)
        ensures
            r == self.spec_queue().len(),
    {
        self.queue.len()
    }

    /// The jobs that ran to completion, in completion order.
    pub fn done_jobs(&self) -> (r: &Vec<u64>)
        ensures
            r@ == self.spec_done(),
    {
        &self.done
    }

    /// The jobs whose worker died running them.
    pub fn crashed_jobs(&self) -> (r: &Vec<u64>)
        ensures
            r@ == self.spec_crashed(),
    {
        &self.crashed
    }
}

/// Law: every submitted job is accounted for exactly once — it is in the
/// queue, on a worker, done, or crashed, and nowhere twice; identifiers
/// never submitted are nowhere.
pub proof fn lemma_jobs_run_exactly_once(p: PoolState)
    requires
        p.inv(),
    ensures
        forall|id: u64| id < p.spec_next_job() ==> p.job_bag().count(id) == 1,
        forall|id: u64| id >= p.spec_next_job() ==> p.job_bag().count(id) == 0,
{
    assert forall|id: u64| id < p.spec_next_job() implies p.job_bag().count(id) == 1 by {
        lemma_range_bag_count(p.spec_next_job(), id);
    }
    assert forall|id: u64| id >= p.spec_next_job() implies p.job_bag().count(id) == 0 by {
        lemma_range_bag_count(p.spec_next_job(), id);
    }
}

/// Law: when the queue is empty and no worker is running, every submitted
/// job has been completed or crashed; if none crashed, all of them
/// completed.
pub proof fn lemma_drained_pool(p: PoolState)
    requires
        p.inv(),
        p.spec_queue().len() == 0,
        forall|i: int| 0 <= i < p.spec_worker_count() ==> !((#[trigger] p.spec_workers()[i])
            is Running),
    ensures
        p.spec_done().to_multiset().add(p.spec_crashed().to_multiset()) == range_bag(
            p.spec_next_job(),
        ),
        p.spec_crashed().len() == 0 ==> p.spec_done().to_multiset() == range_bag(
            p.spec_next_job(),
        ),
{
    lemma_workers_jobs_none_running(p.spec_workers());
    assert(p.spec_queue().to_multiset() =~= Multiset::<u64>::empty()) by {
        assert forall|x: u64| p.spec_queue().to_multiset().count(x) == 0 by {
            assert(!p.spec_queue().contains(x));
        }
    }
    assert(p.spec_done().to_multiset().add(p.spec_crashed().to_multiset()) =~= p.job_bag());
    if p.spec_crashed().len() == 0 {
        assert(p.spec_crashed().to_multiset() =~= Multiset::<u64>::empty()) by {
            assert forall|x: u64| p.spec_crashed().to_multiset().count(x) == 0 by {
                assert(!p.spec_crashed().contains(x));
            }
        }
        assert(p.spec_done().to_multiset() =~= p.job_bag());
    }
}

} // verus!
