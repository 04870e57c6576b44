//! Per-cluster statistics, kept by one worker while it executes batches.
use vstd::prelude::*;
use crate::algo::{Idx, copy_batch};

verus! {

/// The sum of a sequence of durations.
pub open spec fn sum_nat(s: Seq<nat>) -> nat
    decreases s.len(),
{
    if s.len() == 0 {
        0
    } else {
        sum_nat(s.drop_last()) + s.last()
    }
}

/// The number of statements in a sequence of batches.
pub open spec fn total_len(bs: Seq<Seq<Idx>>) -> nat
    decreases bs.len(),
{
    if bs.len() == 0 {
        0
    } else {
        total_len(bs.drop_last()) + bs.last().len()
    }
}

pub open spec fn opt_seq(o: Option<Vec<Idx>>) -> Option<Seq<Idx>> {
    match o {
        Some(v) => Some(v@),
        None => None,
    }
}

/// What a statistics record holds. Times are in nanoseconds. `batches` and
/// `elapsed` are the history of the run: every batch begun and every
/// statement time recorded, in order.
pub struct StatisticsView {
    pub cur_batch: Option<Seq<Idx>>,
    pub cur_batch_idx: nat,
    pub last_batch: Option<Seq<Idx>>,
    pub error: Option<Seq<char>>,
    pub sql_amount: nat,
    pub batch_amount: nat,
    pub time: nat,
    pub in_batch: bool,
    pub batch_time: nat,
    pub slowest_sql: Option<Idx>,
    pub slowest_sql_time: nat,
    pub slowest_batch: Option<Seq<Idx>>,
    pub slowest_batch_time: nat,
    pub batches: Seq<Seq<Idx>>,
    pub elapsed: Seq<nat>,
}

/// The bookkeeping of a record agrees with its history.
pub open spec fn consistent(v: StatisticsView) -> bool {
    &&& v.batch_amount == v.batches.len()
    &&& v.time + (if v.in_batch {
        v.batch_time
    } else {
        0
    }) == sum_nat(v.elapsed)
    &&& v.in_batch ==> {
        &&& v.batches.len() > 0
        &&& v.cur_batch == Some(v.batches.last())
        &&& v.cur_batch_idx <= v.batches.last().len()
        &&& v.sql_amount == total_len(v.batches.drop_last()) + v.cur_batch_idx
    }
    &&& !v.in_batch ==> v.sql_amount == total_len(v.batches)
    &&& v.slowest_sql_time <= v.slowest_batch_time || (v.in_batch && v.slowest_sql_time
        <= v.batch_time)
}

/// Statistics of one worker: counts, times, the slowest statement and batch,
/// and where the first error happened.
pub struct Statistics {
    cur_batch: Option<Vec<Idx>>,
    /// 1-based position in `cur_batch` of the statement under way; 0 for none.
    cur_batch_idx: usize,
    last_batch: Option<Vec<Idx>>,
    error: Option<String>,
    sql_amount: usize,
    batch_amount: usize,
    time: u128,
    in_batch: bool,
    batch_time: u128,
    slowest_sql: Option<Idx>,
    slowest_sql_time: u128,
    slowest_batch: Option<Vec<Idx>>,
    slowest_batch_time: u128,
    batches: Ghost<Seq<Seq<Idx>>>,
    elapsed: Ghost<Seq<nat>>,
}

impl View for Statistics {
    type V = StatisticsView;

    closed spec fn view(&self) -> StatisticsView {
        StatisticsView {
            cur_batch: opt_seq(self.cur_batch),
            cur_batch_idx: self.cur_batch_idx as nat,
            last_batch: opt_seq(self.last_batch),
            error: match self.error {
                Some(e) => Some(e@),
                None => None,
            },
            sql_amount: self.sql_amount as nat,
            batch_amount: self.batch_amount as nat,
            time: self.time as nat,
            in_batch: self.in_batch,
            batch_time: self.batch_time as nat,
            slowest_sql: self.slowest_sql,
            slowest_sql_time: self.slowest_sql_time as nat,
            slowest_batch: opt_seq(self.slowest_batch),
            slowest_batch_time: self.slowest_batch_time as nat,
            batches: self.batches@,
            elapsed: self.elapsed@,
        }
    }
}

proof fn lemma_total_len_push(bs: Seq<Seq<Idx>>, b: Seq<Idx>)
    ensures
        total_len(bs.push(b)) == total_len(bs) + b.len(),
        bs.push(b).drop_last() == bs,
{
    assert(bs.push(b).drop_last() =~= bs);
}

proof fn lemma_sum_nat_push(s: Seq<nat>, x: nat)
    ensures
        sum_nat(s.push(x)) == sum_nat(s) + x,
{
    assert(s.push(x).drop_last() =~= s);
}

proof fn lemma_total_len_uniform(bs: Seq<Seq<Idx>>, n: nat)
    requires
        forall|k: int| 0 <= k < bs.len() ==> #[trigger] bs[k].len() == n,
    ensures
        total_len(bs) == bs.len() * n,
    decreases bs.len(),
{
    if bs.len() > 0 {
        lemma_total_len_uniform(bs.drop_last(), n);
        assert(bs.last().len() == n);
        assert((bs.len() - 1) * n + n == bs.len() * n) by (nonlinear_arith);
    }
}

/// Between batches, a record agrees with its history: when every batch has
/// `per_batch` statements the statement count is the batch count times
/// `per_batch`, the total time is the sum of the recorded statement times, and
/// the slowest statement took no longer than the slowest batch.
pub proof fn lemma_statistics_consistency(v: StatisticsView, per_batch: nat)
    requires
        consistent(v),
        !v.in_batch,
        forall|k: int| 0 <= k < v.batches.len() ==> #[trigger] v.batches[k].len() == per_batch,
    ensures
        v.sql_amount == v.batch_amount * per_batch,
        v.time == sum_nat(v.elapsed),
        v.slowest_sql_time <= v.slowest_batch_time,
{
    lemma_total_len_uniform(v.batches, per_batch);
}

/// What stands in the margin of a printed statement.
#[derive(Clone, Copy, Debug, PartialEq, Eq, Structural)]
pub enum Marker {
    /// No margin: the batch is printed without an error position.
    Plain,
    /// A blank margin beside the statements that did not fail.
    Pad,
    /// The arrow that points at the failing statement.
    Arrow,
}

/// One printed statement of a batch.
#[derive(Clone, Copy, Debug, PartialEq, Eq, Structural)]
pub struct BatchLine {
    pub marker: Marker,
    /// 0-based file index.
    pub file: usize,
    /// 0-based statement index within the file.
    pub row: usize,
}

/// The margin of the statement at 0-based position `k`, where `error_idx` is
/// the 1-based position of the failing statement, if any.
pub open spec fn marker_at(error_idx: Option<usize>, k: int) -> Marker {
    match error_idx {
        None => Marker::Plain,
        Some(i) => if k + 1 == i {
            Marker::Arrow
        } else {
            Marker::Pad
        },
    }
}

/// `lines` prints `batch`, in order, with the margins that `error_idx` gives.
pub open spec fn lines_of(lines: Seq<BatchLine>, batch: Seq<Idx>, error_idx: Option<usize>) -> bool {
    &&& lines.len() == batch.len()
    &&& forall|k: int|
        0 <= k < batch.len() ==> #[trigger] lines[k] == (BatchLine {
            marker: marker_at(error_idx, k),
            file: batch[k].0,
            row: batch[k].1,
        })
}

/// The lines that print `batch`; `error_idx`, 1-based, marks the statement
/// that failed.
pub fn batch_lines(batch: &Vec<Idx>, error_idx: Option<usize>) -> (r: Vec<BatchLine>)
    ensures
        lines_of(r@, batch@, error_idx),
{
    let mut r: Vec<BatchLine> = Vec::with_capacity(batch.len());
    let mut k: usize = 0;
    while k < batch.len()
        invariant
            k <= batch.len(),
            r@.len() == k,
            forall|j: int|
                0 <= j < k ==> #[trigger] r@[j] == (BatchLine {
                    marker: marker_at(error_idx, j),
                    file: batch@[j].0,
                    row: batch@[j].1,
                }),
        decreases batch.len() - k,
    {
        let marker = match error_idx {
            None => Marker::Plain,
            Some(i) => if k + 1 == i {
                Marker::Arrow
            } else {
                Marker::Pad
            },
        };
        let (file, row) = batch[k];
        r.push(BatchLine { marker, file, row });
        k += 1;
    }
    r
}

pub open spec fn opt_lines_of(
    lines: Option<Vec<BatchLine>>,
    batch: Option<Seq<Idx>>,
    error_idx: Option<usize>,
) -> bool {
    match (lines, batch) {
        (None, None) => true,
        (Some(l), Some(b)) => lines_of(l@, b, error_idx),
        _ => false,
    }
}

fn opt_batch_lines(batch: &Option<Vec<Idx>>, error_idx: Option<usize>) -> (r: Option<
    Vec<BatchLine>,
>)
    ensures
        opt_lines_of(r, opt_seq(*batch), error_idx),
{
    match batch {
        Some(b) => Some(batch_lines(b, error_idx)),
        None => None,
    }
}

/// What the report says of one cluster.
pub enum Summary {
    /// The worker failed; `batch` is the batch under way, with the failing
    /// statement marked, or `None` when it failed before its first batch.
    Failed { error: String, batch: Option<Vec<BatchLine>> },
    /// Another worker failed; `last_batch` is the last batch this one completed.
    Aborted { last_batch: Option<Vec<BatchLine>> },
    /// The run was clean but no statement was executed here.
    NoSql,
    /// The totals of a clean run; times in nanoseconds, averages rounded down.
    Totals {
        time: u128,
        batch_amount: usize,
        sql_amount: usize,
        avg_per_batch: u128,
        avg_per_sql: u128,
        slowest_sql: Option<(Idx, u128)>,
        slowest_batch: Option<(Vec<BatchLine>, u128)>,
    },
}

impl Statistics {
    /// Decides what the report prints for this record; `abort` tells whether
    /// the run was aborted by some worker's failure.
    pub fn summary(&self, abort: bool) -> (r: Summary)
        requires
            self.wf(),
        ensures
            ({
                let v = self@;
                match r {
                    Summary::Failed { error, batch } => v.error == Some(error@) && opt_lines_of(
                        batch,
                        v.cur_batch,
                        Some(v.cur_batch_idx as usize),
                    ),
                    Summary::Aborted { last_batch } => v.error is None && abort && opt_lines_of(
                        last_batch,
                        v.last_batch,
                        None,
                    ),
                    Summary::NoSql => v.error is None && !abort && v.sql_amount == 0,
                    Summary::Totals {
                        time,
                        batch_amount,
                        sql_amount,
                        avg_per_batch,
                        avg_per_sql,
                        slowest_sql,
                        slowest_batch,
                    } => {
                        &&& v.error is None && !abort && v.sql_amount > 0
                        &&& time == v.time && batch_amount == v.batch_amount
                        &&& sql_amount == v.sql_amount
                        &&& avg_per_batch == v.time / v.batch_amount
                        &&& avg_per_sql == v.time / v.sql_amount
                        &&& match (slowest_sql, v.slowest_sql) {
                            (None, None) => true,
                            (Some((at, t)), Some(x)) => at == x && t == v.slowest_sql_time,
                            _ => false,
                        }
                        &&& match (slowest_batch, v.slowest_batch) {
                            (None, None) => true,
                            (Some((l, t)), Some(b)) => lines_of(l@, b, None) && t
                                == v.slowest_batch_time,
                            _ => false,
                        }
                    },
                }
            }),
    {
        match &self.error {
            Some(e) => {
                return Summary::Failed {
                    error: e.clone(),
                    batch: opt_batch_lines(&self.cur_batch, Some(self.cur_batch_idx)),
                };
            },
            None => {},
        }
        if abort {
            return Summary::Aborted { last_batch: opt_batch_lines(&self.last_batch, None) };
        }
        if self.sql_amount == 0 {
            return Summary::NoSql;
        }
        assert(self@.batch_amount > 0);
        let slowest_sql = match self.slowest_sql {
            Some(x) => Some((x, self.slowest_sql_time)),
            None => None,
        };
        let slowest_batch = match &self.slowest_batch {
            Some(b) => Some((batch_lines(b, None), self.slowest_batch_time)),
            None => None,
        };
        Summary::Totals {
            time: self.time,
            batch_amount: self.batch_amount,
            sql_amount: self.sql_amount,
            avg_per_batch: self.time / (self.batch_amount as u128),
            avg_per_sql: self.time / (self.sql_amount as u128),
            slowest_sql,
            slowest_batch,
        }
    }

    pub open spec fn wf(&self) -> bool {
        consistent(self@)
    }

    /// A record with nothing counted yet.
    pub fn new() -> (r: Statistics)
        ensures
            r.wf(),
            r@.cur_batch is None,
            r@.cur_batch_idx == 0,
            r@.last_batch is None,
            r@.error is None,
            r@.sql_amount == 0,
            r@.batch_amount == 0,
            r@.time == 0,
            !r@.in_batch,
            r@.slowest_sql is None,
            r@.slowest_sql_time == 0,
            r@.slowest_batch is None,
            r@.slowest_batch_time == 0,
            r@.batches == Seq::<Seq<Idx>>::empty(),
            r@.elapsed == Seq::<nat>::empty(),
    {
        Statistics {
            cur_batch: None,
            cur_batch_idx: 0,
            last_batch: None,
            error: None,
            sql_amount: 0,
            batch_amount: 0,
            time: 0,
            in_batch: false,
            batch_time: 0,
            slowest_sql: None,
            slowest_sql_time: 0,
            slowest_batch: None,
            slowest_batch_time: 0,
            batches: Ghost(Seq::empty()),
            elapsed: Ghost(Seq::empty()),
        }
    }

    /// Starts a batch: it becomes the current batch, the batch count grows by
    /// one, and no statement of it has run yet.
    pub fn begin_batch(&mut self, batch: Vec<Idx>)
        requires
            old(self).wf(),
            !old(self)@.in_batch,
            old(self)@.batch_amount < usize::MAX,
        ensures
            final(self).wf(),
            final(self)@ == (StatisticsView {
                cur_batch: Some(batch@),
                cur_batch_idx: 0,
                batch_amount: old(self)@.batch_amount + 1,
                in_batch: true,
                batch_time: 0,
                batches: old(self)@.batches.push(batch@),
                ..old(self)@
            }),
    {
        proof {
            lemma_total_len_push(self.batches@, batch@);
        }
        self.batches = Ghost(self.batches@.push(batch@));
        self.cur_batch = Some(batch);
        self.batch_amount = self.batch_amount + 1;
        self.cur_batch_idx = 0;
        self.in_batch = true;
        self.batch_time = 0;
    }

    /// The next statement of the current batch, counted as executed; `None`
    /// once the whole batch has been run, with nothing changed.
    pub fn next_sql(&mut self) -> (r: Option<Idx>)
        requires
            old(self).wf(),
            old(self)@.in_batch,
            old(self)@.sql_amount < usize::MAX,
        ensures
            final(self).wf(),
            ({
                let b = old(self)@.cur_batch->Some_0;
                let i = old(self)@.cur_batch_idx;
                if i < b.len() {
                    &&& r == Some(b[i as int])
                    &&& final(self)@ == (StatisticsView {
                        cur_batch_idx: i + 1,
                        sql_amount: old(self)@.sql_amount + 1,
                        ..old(self)@
                    })
                } else {
                    r is None && final(self)@ == old(self)@
                }
            }),
    {
        match &self.cur_batch {
            Some(b) => {
                if self.cur_batch_idx < b.len() {
                    let x = b[self.cur_batch_idx];
                    self.cur_batch_idx = self.cur_batch_idx + 1;
                    self.sql_amount = self.sql_amount + 1;
                    Some(x)
                } else {
                    None
                }
            },
            None => None,
        }
    }

    /// Records the time of the statement just executed: it adds to the
    /// batch's time, and the statement becomes the slowest one if it took
    /// longer than every earlier one.
    pub fn record_sql(&mut self, elapsed: u128)
        requires
            old(self).wf(),
            old(self)@.in_batch,
            old(self)@.cur_batch_idx >= 1,
            old(self)@.batch_time + elapsed <= u128::MAX,
        ensures
            final(self).wf(),
            ({
                let o = old(self)@;
                let slower = elapsed > o.slowest_sql_time;
                final(self)@ == (StatisticsView {
                    batch_time: o.batch_time + elapsed as nat,
                    slowest_sql: if slower {
                        Some(o.cur_batch->Some_0[o.cur_batch_idx - 1])
                    } else {
                        o.slowest_sql
                    },
                    slowest_sql_time: if slower {
                        elapsed as nat
                    } else {
                        o.slowest_sql_time
                    },
                    elapsed: o.elapsed.push(elapsed as nat),
                    ..o
                })
            }),
    {
        proof {
            lemma_sum_nat_push(self.elapsed@, elapsed as nat);
        }
        self.elapsed = Ghost(self.elapsed@.push(elapsed as nat));
        if elapsed > self.slowest_sql_time {
            self.slowest_sql_time = elapsed;
            match &self.cur_batch {
                Some(b) => {
                    self.slowest_sql = Some(b[self.cur_batch_idx - 1]);
                },
                None => {},
            }
        }
        self.batch_time = self.batch_time + elapsed;
    }

    /// Closes the current batch once all its statements ran: its time adds to
    /// the total, and it becomes the slowest batch if it took longer than
    /// every earlier one.
    pub fn end_batch(&mut self)
        requires
            old(self).wf(),
            old(self)@.in_batch,
            old(self)@.cur_batch_idx == old(self)@.cur_batch->Some_0.len(),
            old(self)@.time + old(self)@.batch_time <= u128::MAX,
        ensures
            final(self).wf(),
            ({
                let o = old(self)@;
                let slower = o.batch_time > o.slowest_batch_time;
                final(self)@ == (StatisticsView {
                    time: o.time + o.batch_time,
                    in_batch: false,
                    slowest_batch: if slower {
                        o.cur_batch
                    } else {
                        o.slowest_batch
                    },
                    slowest_batch_time: if slower {
                        o.batch_time
                    } else {
                        o.slowest_batch_time
                    },
                    ..o
                })
            }),
    {
        proof {
            let bs = self.batches@;
            assert(bs =~= bs.drop_last().push(bs.last()));
            lemma_total_len_push(bs.drop_last(), bs.last());
        }
        self.time = self.time + self.batch_time;
        if self.batch_time > self.slowest_batch_time {
            self.slowest_batch_time = self.batch_time;
            match &self.cur_batch {
                Some(b) => {
                    self.slowest_batch = Some(copy_batch(b));
                },
                None => {},
            }
        }
        self.in_batch = false;
    }

    /// The worker was told there is no more work: the current batch becomes
    /// the last one handled.
    pub fn finish(&mut self)
        requires
            old(self).wf(),
            !old(self)@.in_batch,
        ensures
            final(self).wf(),
            final(self)@ == (StatisticsView {
                cur_batch: None,
                cur_batch_idx: 0,
                last_batch: old(self)@.cur_batch,
                ..old(self)@
            }),
    {
        self.last_batch = self.cur_batch.take();
        self.cur_batch_idx = 0;
    }

    /// Records the error that ended this worker's run. Everything else stays,
    /// so that the current batch and position locate the failing statement.
    pub fn fail(&mut self, error: String)
        requires
            old(self).wf(),
        ensures
            final(self).wf(),
            final(self)@ == (StatisticsView { error: Some(error@), ..old(self)@ }),
    {
        self.error = Some(error);
    }

    pub fn has_error(&self) -> (r: bool)
        ensures
            r == self@.error is Some,
    {
        self.error.is_some()
    }

    pub fn sql_amount(&self) -> (r: usize)
        ensures
            r == self@.sql_amount,
    {
        self.sql_amount
    }

    pub fn batch_amount(&self) -> (r: usize)
        ensures
            r == self@.batch_amount,
    {
        self.batch_amount
    }

    /// Time of the statements run so far in the current batch, in nanoseconds.
    pub fn batch_time(&self) -> (r: u128)
        ensures
            r == self@.batch_time,
    {
        self.batch_time
    }

    /// Total execution time of the completed batches, in nanoseconds.
    pub fn time(&self) -> (r: u128)
        ensures
            r == self@.time,
    {
        self.time
    }

    pub fn cur_batch_idx(&self) -> (r: usize)
        ensures
            r == self@.cur_batch_idx,
    {
        self.cur_batch_idx
    }

    pub fn cur_batch(&self) -> (r: Option<Vec<Idx>>)
        ensures
            opt_seq(r) == self@.cur_batch,
    {
        match &self.cur_batch {
            Some(b) => Some(copy_batch(b)),
            None => None,
        }
    }

    pub fn last_batch(&self) -> (r: Option<Vec<Idx>>)
        ensures
            opt_seq(r) == self@.last_batch,
    {
        match &self.last_batch {
            Some(b) => Some(copy_batch(b)),
            None => None,
        }
    }

    pub fn slowest_sql_time(&self) -> (r: u128)
        ensures
            r == self@.slowest_sql_time,
    {
        self.slowest_sql_time
    }

    pub fn slowest_batch_time(&self) -> (r: u128)
        ensures
            r == self@.slowest_batch_time,
    {
        self.slowest_batch_time
    }
}

} // verus!
