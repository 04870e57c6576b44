//! The coordinator's guarded state: a bounded FIFO of batches between one
//! producer and the workers, with parked workers, and shutdown or abort.
//!
//! Every method here is one step taken under the coordinator's lock; the
//! waiting itself (for a free slot, or for a wakeup) is done by the caller.
use vstd::prelude::*;
use std::collections::VecDeque;
use crate::algo::{Idx, CoordinatorClosed};
use crate::statistics::{Statistics, StatisticsView, consistent};

verus! {

/// What the coordinator holds.
pub struct CoordinatorView {
    /// The producer may still deliver batches.
    pub running: bool,
    /// A worker failed: everybody stops.
    pub abort: bool,
    /// How many batches the queue may hold: one slot per worker.
    pub capacity: nat,
    /// Batches waiting for a worker, oldest first.
    pub queue: Seq<Seq<Idx>>,
    /// Workers parked on an empty queue, in the order they parked.
    pub waiters: Seq<usize>,
    /// The statistics of the workers that have ended, with their targets.
    pub reports: Seq<(Seq<char>, StatisticsView)>,
}

/// The state's own rules: the queue never holds more batches than there are
/// slots, an aborted run no longer runs, and each report is consistent.
pub open spec fn coordinator_wf(m: CoordinatorView) -> bool {
    &&& m.queue.len() <= m.capacity
    &&& m.abort ==> !m.running
    &&& forall|k: int| 0 <= k < m.reports.len() ==> consistent(#[trigger] m.reports[k].1)
}

/// The state after an abort: nothing runs, nothing waits in the queue, and
/// no worker stays parked.
pub open spec fn aborted(m: CoordinatorView) -> CoordinatorView {
    CoordinatorView { running: false, abort: true, queue: seq![], waiters: seq![], ..m }
}

/// The state after a shutdown: the producer is done; queued batches stay to
/// be drained, and no worker stays parked.
pub open spec fn shut_down(m: CoordinatorView) -> CoordinatorView {
    CoordinatorView { running: false, waiters: seq![], ..m }
}

/// A worker that asks for work in state `m` is told there is no more.
pub open spec fn recv_ends(m: CoordinatorView) -> bool {
    m.abort || (m.queue.len() == 0 && !m.running)
}

/// A batch offered in state `m` is refused.
pub open spec fn submit_refused(m: CoordinatorView) -> bool {
    !m.running
}

/// After a worker's failure aborts the run, every worker's next request ends
/// its work, the producer's next batch is refused, and both stay so: neither
/// a request nor a refused batch changes the state.
pub proof fn lemma_abort_liveness(m: CoordinatorView)
    ensures
        recv_ends(aborted(m)),
        submit_refused(aborted(m)),
        aborted(m).queue.len() == 0,
        aborted(m).waiters.len() == 0,
        coordinator_wf(m) ==> coordinator_wf(aborted(m)),
{
}

/// The outcome of offering a batch.
pub enum Submitted {
    /// The batch is queued; the worker named, if any, was parked and must be woken.
    Queued(Option<usize>),
    /// Every slot is taken: the batch is handed back, to be offered again
    /// once a worker has taken one.
    Full(Vec<Idx>),
}

/// What a worker gets when it asks for work.
pub enum Received {
    Batch(Vec<Idx>),
    /// No batch now: the worker is parked and waits to be woken.
    Park,
    /// The run is over for this worker.
    NoMore,
}

pub struct StateMut {
    running: bool,
    abort: bool,
    capacity: usize,
    queue: VecDeque<Vec<Idx>>,
    waiting_worker_signals: VecDeque<usize>,
    total_statistics: Vec<(String, Statistics)>,
}

impl View for StateMut {
    type V = CoordinatorView;

    closed spec fn view(&self) -> CoordinatorView {
        CoordinatorView {
            running: self.running,
            abort: self.abort,
            capacity: self.capacity as nat,
            queue: self.queue@.map_values(|b: Vec<Idx>| b@),
            waiters: self.waiting_worker_signals@,
            reports: self.total_statistics@.map_values(|p: (String, Statistics)| (p.0@, p.1@)),
        }
    }
}

impl StateMut {
    pub open spec fn wf(&self) -> bool {
        coordinator_wf(self@)
    }

    /// A running coordinator with no slot yet: each worker added brings one.
    /// `expected_workers` only reserves room.
    pub fn new(expected_workers: usize) -> (r: StateMut)
        ensures
            r.wf(),
            r@ == (CoordinatorView {
                running: true,
                abort: false,
                capacity: 0,
                queue: seq![],
                waiters: seq![],
                reports: seq![],
            }),
    {
        let r = StateMut {
            running: true,
            abort: false,
            capacity: 0,
            queue: VecDeque::with_capacity(expected_workers),
            waiting_worker_signals: VecDeque::new(),
            total_statistics: Vec::new(),
        };
        assert(r@.queue =~= seq![]);
        assert(r@.reports =~= seq![]);
        r
    }

    /// A worker joins: the queue gets one more slot.
    pub fn add_worker(&mut self)
        requires
            old(self).wf(),
            old(self)@.capacity < usize::MAX,
        ensures
            final(self).wf(),
            final(self)@ == (CoordinatorView { capacity: old(self)@.capacity + 1, ..old(self)@ }),
    {
        self.capacity = self.capacity + 1;
    }

    /// Offers a batch. A coordinator that no longer runs refuses it. With a
    /// free slot the batch is queued at the back and the longest-parked
    /// worker, if any, is taken off the waiters to be woken; with none, the
    /// batch is handed back and nothing changes.
    pub fn submit(&mut self, batch: Vec<Idx>) -> (r: Result<Submitted, CoordinatorClosed>)
        requires
            old(self).wf(),
        ensures
            final(self).wf(),
            ({
                let o = old(self)@;
                match r {
                    Err(_) => submit_refused(o) && final(self)@ == o,
                    Ok(Submitted::Full(b)) => !submit_refused(o) && o.queue.len() >= o.capacity
                        && b@ == batch@ && final(self)@ == o,
                    Ok(Submitted::Queued(w)) => {
                        &&& !submit_refused(o) && o.queue.len() < o.capacity
                        &&& final(self)@.queue == o.queue.push(batch@)
                        &&& if o.waiters.len() == 0 {
                            w is None && final(self)@ == (CoordinatorView {
                                queue: o.queue.push(batch@),
                                ..o
                            })
                        } else {
                            w == Some(o.waiters[0]) && final(self)@ == (CoordinatorView {
                                queue: o.queue.push(batch@),
                                waiters: o.waiters.drop_first(),
                                ..o
                            })
                        }
                    },
                }
            }),
    {
        if !self.running {
            return Err(CoordinatorClosed);
        }
        if self.queue.len() >= self.capacity {
            return Ok(Submitted::Full(batch));
        }
        let ghost b = batch@;
        self.queue.push_back(batch);
        assert(self@.queue =~= old(self)@.queue.push(b));
        let w = self.waiting_worker_signals.pop_front();
        if w.is_some() {
            assert(self@.waiters =~= old(self)@.waiters.drop_first());
        }
        Ok(Submitted::Queued(w))
    }

    /// A worker asks for work. After an abort there is none. Otherwise the
    /// oldest queued batch is handed out, freeing its slot; with an empty
    /// queue a coordinator that no longer runs has none, and a running one
    /// parks the worker at the back of the waiters.
    pub fn recv(&mut self, worker: usize) -> (r: Received)
        requires
            old(self).wf(),
        ensures
            final(self).wf(),
            ({
                let o = old(self)@;
                match r {
                    Received::NoMore => recv_ends(o) && final(self)@ == o,
                    Received::Batch(b) => !recv_ends(o) && o.queue.len() > 0 && b@ == o.queue[0]
                        && final(self)@ == (CoordinatorView { queue: o.queue.drop_first(), ..o }),
                    Received::Park => !recv_ends(o) && o.queue.len() == 0 && final(self)@ == (
                    CoordinatorView { waiters: o.waiters.push(worker), ..o }),
                }
            }),
    {
        if self.abort {
            return Received::NoMore;
        }
        match self.queue.pop_front() {
            Some(b) => {
                assert(self@.queue =~= old(self)@.queue.drop_first());
                Received::Batch(b)
            },
            None => {
                if !self.running {
                    Received::NoMore
                } else {
                    self.waiting_worker_signals.push_back(worker);
                    Received::Park
                }
            },
        }
    }

    /// Takes every parked worker off the waiters, oldest first, to be woken.
    fn take_waiters(&mut self) -> (r: Vec<usize>)
        ensures
            r@ == old(self)@.waiters,
            final(self)@ == (CoordinatorView { waiters: seq![], ..old(self)@ }),
    {
        let mut r: Vec<usize> = Vec::new();
        let ghost w0 = self@.waiters;
        while self.waiting_worker_signals.len() > 0
            invariant
                self@ == (CoordinatorView { waiters: self@.waiters, ..old(self)@ }),
                w0 == old(self)@.waiters,
                r@ + self@.waiters == w0,
            decreases self@.waiters.len(),
        {
            match self.waiting_worker_signals.pop_front() {
                Some(w) => {
                    r.push(w);
                    assert(r@ + self@.waiters =~= w0);
                },
                None => {},
            }
        }
        assert(r@ =~= w0);
        assert(self@.waiters =~= seq![]);
        r
    }

    /// Drops every queued batch, freeing their slots, and takes every
    /// parked worker off the waiters; returns those workers, oldest first.
    fn clear(&mut self) -> (r: Vec<usize>)
        ensures
            r@ == old(self)@.waiters,
            final(self)@ == (CoordinatorView { queue: seq![], waiters: seq![], ..old(self)@ }),
    {
        self.queue.clear();
        assert(self@.queue =~= seq![]);
        self.take_waiters()
    }

    /// A worker failed: stops the run, drops what is queued, and returns the
    /// parked workers to be woken.
    pub fn abort(&mut self) -> (r: Vec<usize>)
        requires
            old(self).wf(),
        ensures
            final(self).wf(),
            final(self)@ == aborted(old(self)@),
            r@ == old(self)@.waiters,
    {
        let ghost o = self@;
        proof {
            lemma_abort_liveness(o);
        }
        self.abort = true;
        self.running = false;
        self.clear()
    }

    /// The producer is done: no more batches are taken, what is queued stays
    /// to be drained, and the parked workers are returned to be woken.
    pub fn shutdown(&mut self) -> (r: Vec<usize>)
        requires
            old(self).wf(),
        ensures
            final(self).wf(),
            final(self)@ == shut_down(old(self)@),
            r@ == old(self)@.waiters,
    {
        let ghost o = self@;
        self.running = false;
        let r = self.take_waiters();
        assert(self@.reports == o.reports);
        r
    }

    /// A worker ended: its statistics join the report, and if it failed the
    /// run is aborted; returns the parked workers to be woken.
    pub fn finish_worker(&mut self, target: String, statistics: Statistics) -> (r: Vec<usize>)
        requires
            old(self).wf(),
            statistics.wf(),
        ensures
            final(self).wf(),
            ({
                let o = old(self)@;
                let base = if statistics@.error is Some {
                    aborted(o)
                } else {
                    o
                };
                &&& final(self)@ == (CoordinatorView {
                    reports: o.reports.push((target@, statistics@)),
                    ..base
                })
                &&& r@ == (if statistics@.error is Some {
                    o.waiters
                } else {
                    seq![]
                })
            }),
    {
        let woken = if statistics.has_error() {
            self.abort()
        } else {
            Vec::new()
        };
        let ghost pre = self@;
        let ghost entry = (target@, statistics@);
        self.total_statistics.push((target, statistics));
        assert(self@.reports =~= pre.reports.push(entry));
        woken
    }

    pub fn is_running(&self) -> (r: bool)
        ensures
            r == self@.running,
    {
        self.running
    }

    pub fn is_aborted(&self) -> (r: bool)
        ensures
            r == self@.abort,
    {
        self.abort
    }

    /// How many batches wait in the queue.
    pub fn queue_len(&self) -> (r: usize)
        ensures
            r == self@.queue.len(),
    {
        self.queue.len()
    }

    /// How many batches the queue may hold.
    pub fn capacity(&self) -> (r: usize)
        ensures
            r == self@.capacity,
    {
        self.capacity
    }

    /// How many workers have reported.
    pub fn report_count(&self) -> (r: usize)
        ensures
            r == self@.reports.len(),
    {
        self.total_statistics.len()
    }

    /// The target and statistics of the `k`-th worker to report.
    pub fn report(&self, k: usize) -> (r: (&String, &Statistics))
        requires
            self.wf(),
            k < self@.reports.len(),
        ensures
            r.0@ == self@.reports[k as int].0,
            r.1@ == self@.reports[k as int].1,
            r.1.wf(),
    {
        let e = &self.total_statistics[k];
        assert(self@.reports[k as int] == (e.0@, e.1@));
        assert(consistent(self@.reports[k as int].1));
        (&e.0, &e.1)
    }
}

} // verus!
