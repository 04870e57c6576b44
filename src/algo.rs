//! Enumeration of all order-preserving interleavings of N statement lists.
use vstd::prelude::*;
use std::sync::mpsc::SyncSender;

verus! {

/// The address of one statement: (file index, statement index in the file).
pub type Idx = (usize, usize);

/// The cursors fit the sizes: one cursor per file, none past its file's end.
pub open spec fn frontier_wf(sizes: Seq<usize>, curs: Seq<usize>) -> bool {
    &&& curs.len() == sizes.len()
    &&& forall|f: int| 0 <= f < sizes.len() ==> curs[f] <= sizes[f]
}

/// Every file has been placed entirely.
pub open spec fn all_placed(sizes: Seq<usize>, curs: Seq<usize>) -> bool {
    forall|f: int| 0 <= f < sizes.len() ==> curs[f] >= sizes[f]
}

/// How many statements of files `0..n` are still to be placed.
pub open spec fn left(sizes: Seq<usize>, curs: Seq<usize>, n: int) -> nat
    decreases n,
{
    if n <= 0 {
        0
    } else {
        let here: nat = if curs[n - 1] <= sizes[n - 1] {
            (sizes[n - 1] - curs[n - 1]) as nat
        } else {
            0
        };
        left(sizes, curs, n - 1) + here
    }
}

/// How many statements are still to be placed.
pub open spec fn remaining(sizes: Seq<usize>, curs: Seq<usize>) -> nat {
    left(sizes, curs, sizes.len() as int)
}

/// The frontier after one more statement of file `f` has been placed.
pub open spec fn advance(curs: Seq<usize>, f: int) -> Seq<usize> {
    curs.update(f, (curs[f] + 1) as usize)
}

/// Puts `x` in front of each of `bs`.
pub open spec fn prefix_all(x: Idx, bs: Seq<Seq<Idx>>) -> Seq<Seq<Idx>> {
    bs.map_values(|b: Seq<Idx>| seq![x] + b)
}

/// All completions of the frontier `curs` whose first statement comes from a
/// file `>= f`, in lexicographic order of the file chosen at each step.
pub open spec fn completions_from(sizes: Seq<usize>, curs: Seq<usize>, f: int) -> Seq<Seq<Idx>>
    decreases remaining(sizes, curs), sizes.len() - f
    via completions_from_decreases
{
    if !frontier_wf(sizes, curs) || f < 0 {
        seq![]
    } else if f >= sizes.len() {
        if all_placed(sizes, curs) {
            seq![seq![]]
        } else {
            seq![]
        }
    } else {
        let here = if curs[f] < sizes[f] {
            prefix_all((f as usize, curs[f]), completions_from(sizes, advance(curs, f), 0))
        } else {
            seq![]
        };
        here + completions_from(sizes, curs, f + 1)
    }
}

#[via_fn]
proof fn completions_from_decreases(sizes: Seq<usize>, curs: Seq<usize>, f: int) {
    if frontier_wf(sizes, curs) && 0 <= f < sizes.len() && curs[f] < sizes[f] {
        lemma_left_advance(sizes, curs, f, sizes.len() as int);
    }
}

/// All completions of the frontier `curs`, in emission order.
pub open spec fn completions(sizes: Seq<usize>, curs: Seq<usize>) -> Seq<Seq<Idx>> {
    completions_from(sizes, curs, 0)
}

/// The frontier at the start: nothing placed yet.
pub open spec fn start(sizes: Seq<usize>) -> Seq<usize> {
    Seq::new(sizes.len(), |f: int| 0usize)
}

/// Every order-preserving interleaving of files of the given sizes, in the
/// order in which the enumerator emits them.
pub open spec fn interleavings(sizes: Seq<usize>) -> Seq<Seq<Idx>> {
    completions(sizes, start(sizes))
}

/// Placing one statement of an unfinished file leaves one fewer to place.
pub proof fn lemma_left_advance(sizes: Seq<usize>, curs: Seq<usize>, f: int, n: int)
    requires
        frontier_wf(sizes, curs),
        0 <= f < sizes.len(),
        curs[f] < sizes[f],
        0 <= n <= sizes.len(),
    ensures
        left(sizes, advance(curs, f), n) + (if f < n { 1int } else { 0int }) == left(sizes, curs, n),
    decreases n,
{
    if n > 0 {
        lemma_left_advance(sizes, curs, f, n - 1);
    }
}

/// Puts `r` in front of each of `cs`.
pub open spec fn extend_all(r: Seq<Idx>, cs: Seq<Seq<Idx>>) -> Seq<Seq<Idx>> {
    cs.map_values(|c: Seq<Idx>| r + c)
}

/// The coordinator no longer takes batches.
#[derive(Debug, Clone, Copy, PartialEq, Eq)]
pub struct CoordinatorClosed;

/// Where the enumerator hands each complete batch.
pub trait BatchSink {
    /// The batches taken so far, in order.
    spec fn taken(&self) -> Seq<Seq<Idx>>;

    /// The sink takes every batch it is handed, now and later.
    spec fn accepts_all(&self) -> bool;

    /// Takes one complete batch, or refuses it and takes nothing.
    fn accept(&mut self, batch: Vec<Idx>) -> (r: Result<(), CoordinatorClosed>)
        ensures
            r is Ok ==> final(self).taken() == old(self).taken().push(batch@),
            r is Err ==> final(self).taken() == old(self).taken(),
            old(self).accepts_all() ==> r is Ok && final(self).accepts_all(),
    ;
}

proof fn lemma_extend_all_add(r: Seq<Idx>, a: Seq<Seq<Idx>>, b: Seq<Seq<Idx>>)
    ensures
        extend_all(r, a + b) == extend_all(r, a) + extend_all(r, b),
{
    assert(extend_all(r, a + b) =~= extend_all(r, a) + extend_all(r, b));
}

proof fn lemma_extend_all_prefix(r: Seq<Idx>, x: Idx, cs: Seq<Seq<Idx>>)
    ensures
        extend_all(r, prefix_all(x, cs)) == extend_all(r.push(x), cs),
{
    assert forall|k: int| 0 <= k < cs.len() implies extend_all(r, prefix_all(x, cs))[k]
        == extend_all(r.push(x), cs)[k] by {
        assert(r + (seq![x] + cs[k]) =~= r.push(x) + cs[k]);
    }
    assert(extend_all(r, prefix_all(x, cs)) =~= extend_all(r.push(x), cs));
}

/// An independent copy of a batch.
pub fn copy_batch(v: &Vec<Idx>) -> (r: Vec<Idx>)
    ensures
        r@ == v@,
{
    let mut r: Vec<Idx> = Vec::with_capacity(v.len());
    let mut k: usize = 0;
    while k < v.len()
        invariant
            k <= v.len(),
            r@ == v@.subrange(0, k as int),
        decreases v.len() - k,
    {
        r.push(v[k]);
        k += 1;
        assert(r@ =~= v@.subrange(0, k as int));
    }
    assert(r@ =~= v@);
    r
}

/// Hands `then` every completion of the frontier `curs`, each appended to
/// `result`, in lexicographic order of the file chosen at each step.
///
/// On success `curs` and `result` are as they were. If `then` refuses a
/// batch, the enumeration stops there: what was taken is a proper prefix of
/// the full sequence.
pub fn interlace_permutation<S: BatchSink>(
    curs: &mut Vec<usize>,
    sizes: &Vec<usize>,
    result: &mut Vec<Idx>,
    then: &mut S,
) -> (r: Result<(), CoordinatorClosed>)
    requires
        frontier_wf(sizes@, old(curs)@),
    ensures
        r is Ok ==> {
            &&& final(curs)@ == old(curs)@
            &&& final(result)@ == old(result)@
            &&& final(then).taken() == old(then).taken() + extend_all(
                old(result)@,
                completions(sizes@, old(curs)@),
            )
        },
        old(then).accepts_all() ==> r is Ok && final(then).accepts_all(),
        r is Err ==> {
            let all = old(then).taken() + extend_all(old(result)@, completions(sizes@, old(curs)@));
            &&& final(then).taken().len() < all.len()
            &&& final(then).taken() == all.take(final(then).taken().len() as int)
        },
    decreases remaining(sizes@, old(curs)@),
{
    let n = sizes.len();
    let ghost c0 = curs@;
    let ghost r0 = result@;
    let ghost t0 = then.taken();
    let ghost all = t0 + extend_all(r0, completions(sizes@, c0));
    let mut i: usize = 0;
    while i < n
        invariant
            n == sizes.len(),
            i <= n,
            c0 == old(curs)@,
            r0 == old(result)@,
            t0 == old(then).taken(),
            old(then).accepts_all() ==> then.accepts_all(),
            frontier_wf(sizes@, c0),
            curs@ == c0,
            result@ == r0,
            all == t0 + extend_all(r0, completions(sizes@, c0)),
            all == then.taken() + extend_all(r0, completions_from(sizes@, c0, i as int)),
        decreases n - i,
    {
        let ghost rest = extend_all(r0, completions_from(sizes@, c0, i + 1));
        if curs[i] < sizes[i] {
            let ghost before = then.taken();
            let x: Idx = (i, curs[i]);
            let ghost sub = extend_all(r0.push(x), completions(sizes@, advance(c0, i as int)));
            proof {
                lemma_extend_all_add(
                    r0,
                    prefix_all(x, completions(sizes@, advance(c0, i as int))),
                    completions_from(sizes@, c0, i + 1),
                );
                lemma_extend_all_prefix(r0, x, completions(sizes@, advance(c0, i as int)));
                assert(all == before + sub + rest);
                lemma_left_advance(sizes@, c0, i as int, n as int);
            }
            result.push(x);
            let c = curs[i];
            curs.set(i, c + 1);
            assert(curs@ == advance(c0, i as int));
            let sub_r = interlace_permutation(curs, sizes, result, then);
            match sub_r {
                Err(e) => {
                    proof {
                        let len = then.taken().len() as int;
                        assert(all.take(len) =~= (before + sub).take(len));
                    }
                    return Err(e);
                },
                Ok(()) => {},
            }
            curs.set(i, c);
            result.pop();
            assert(curs@ =~= c0);
            assert(result@ =~= r0);
            assert(all =~= then.taken() + rest);
        } else {
            assert(extend_all(r0, completions_from(sizes@, c0, i as int)) =~= rest);
        }
        i += 1;
    }
    let mut done = true;
    let mut j: usize = 0;
    while j < n
        invariant
            n == sizes.len(),
            j <= n,
            frontier_wf(sizes@, c0),
            curs@ == c0,
            done == (forall|k: int| 0 <= k < j ==> c0[k] >= sizes@[k]),
        decreases n - j,
    {
        if curs[j] < sizes[j] {
            done = false;
        }
        j += 1;
    }
    if done {
        assert(all_placed(sizes@, c0));
        assert(extend_all(r0, seq![seq![]]) =~= seq![r0]);
        let batch = copy_batch(result);
        let before_accept = Ghost(then.taken());
        let accepted = then.accept(batch);
        match accepted {
            Err(e) => {
                assert(all.take(before_accept@.len() as int) =~= before_accept@);
                return Err(e);
            },
            Ok(()) => {
                assert(all =~= then.taken());
            },
        }
    } else {
        assert(extend_all(r0, seq![]) =~= seq![]);
        assert(all =~= then.taken());
    }
    Ok(())
}

/// The sequences that a list of batches holds.
pub open spec fn views(bs: Seq<Vec<Idx>>) -> Seq<Seq<Idx>> {
    bs.map_values(|b: Vec<Idx>| b@)
}

/// A sink that keeps every batch it is handed, in order.
pub struct BatchList {
    batches: Vec<Vec<Idx>>,
}

impl BatchList {
    pub fn new() -> (r: BatchList)
        ensures
            r.taken() == Seq::<Seq<Idx>>::empty(),
            r.accepts_all(),
    {
        let r = BatchList { batches: Vec::new() };
        assert(r.taken() =~= Seq::<Seq<Idx>>::empty());
        r
    }

    /// The batches taken, in order.
    pub fn into_batches(self) -> (r: Vec<Vec<Idx>>)
        ensures
            views(r@) == self.taken(),
    {
        self.batches
    }
}

impl BatchSink for BatchList {
    closed spec fn taken(&self) -> Seq<Seq<Idx>> {
        views(self.batches@)
    }

    open spec fn accepts_all(&self) -> bool {
        true
    }

    fn accept(&mut self, batch: Vec<Idx>) -> (r: Result<(), CoordinatorClosed>) {
        let ghost b = batch@;
        self.batches.push(batch);
        assert(views(self.batches@) =~= views(old(self).batches@).push(b));
        Ok(())
    }
}

/// std's bounded channel sender, carried as an opaque value.
#[verifier::external_type_specification]
#[verifier::external_body]
#[verifier::reject_recursive_types(T)]
pub struct ExSyncSender<T>(SyncSender<T>);

/// Relies on std's `SyncSender::send`: it waits until the channel has room
/// and hands the batch over, or fails when the receiving side is gone.
#[verifier::external_body]
fn send_batch(tx: &SyncSender<Vec<Idx>>, batch: Vec<Idx>) -> (r: bool) {
    tx.send(batch).is_ok()
}

/// A sink that hands each batch over a bounded channel, waiting while the
/// channel is full; it refuses once the receiving side has hung up.
pub struct BatchSender {
    tx: SyncSender<Vec<Idx>>,
    sent: Ghost<Seq<Seq<Idx>>>,
}

impl BatchSender {
    pub fn new(tx: SyncSender<Vec<Idx>>) -> (r: BatchSender)
        ensures
            r.taken() == Seq::<Seq<Idx>>::empty(),
    {
        BatchSender { tx, sent: Ghost(Seq::empty()) }
    }
}

impl BatchSink for BatchSender {
    closed spec fn taken(&self) -> Seq<Seq<Idx>> {
        self.sent@
    }

    open spec fn accepts_all(&self) -> bool {
        false
    }

    fn accept(&mut self, batch: Vec<Idx>) -> (r: Result<(), CoordinatorClosed>) {
        let ghost b = batch@;
        if send_batch(&self.tx, batch) {
            self.sent = Ghost(self.sent@.push(b));
            Ok(())
        } else {
            Err(CoordinatorClosed)
        }
    }
}

/// Every order-preserving interleaving of files of the given sizes, in the
/// enumerator's order.
pub fn all_interleavings(sizes: &Vec<usize>) -> (r: Vec<Vec<Idx>>)
    ensures
        views(r@) == interleavings(sizes@),
{
    let mut curs: Vec<usize> = Vec::with_capacity(sizes.len());
    let mut k: usize = 0;
    while k < sizes.len()
        invariant
            k <= sizes.len(),
            curs@ == Seq::new(k as nat, |f: int| 0usize),
        decreases sizes.len() - k,
    {
        curs.push(0);
        k += 1;
        assert(curs@ =~= Seq::new(k as nat, |f: int| 0usize));
    }
    assert(curs@ =~= start(sizes@));
    let mut result: Vec<Idx> = Vec::new();
    let mut sink = BatchList::new();
    let res = interlace_permutation(&mut curs, sizes, &mut result, &mut sink);
    assert(res is Ok);
    assert(extend_all(seq![], interleavings(sizes@)) =~= interleavings(sizes@)) by {
        assert forall|j: int| 0 <= j < interleavings(sizes@).len() implies
            extend_all(seq![], interleavings(sizes@))[j] == interleavings(sizes@)[j] by {
            assert(Seq::<Idx>::empty() + interleavings(sizes@)[j] =~= interleavings(sizes@)[j]);
        }
    }
    assert(Seq::<Seq<Idx>>::empty() + interleavings(sizes@) =~= interleavings(sizes@));
    sink.into_batches()
}

} // verus!
