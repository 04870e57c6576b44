//! Properties of the interleaving enumeration.
use vstd::prelude::*;
use vstd::arithmetic::div_mod::lemma_div_by_multiple;
use crate::algo::{
    Idx, advance, all_placed, completions, completions_from, frontier_wf, interleavings, left,
    lemma_left_advance, prefix_all, remaining, start,
};

verus! {

/// The statement indices of file `g` in `b`, in the order they occur.
pub open spec fn entries_of(b: Seq<Idx>, g: int) -> Seq<int>
    decreases b.len(),
{
    if b.len() == 0 {
        seq![]
    } else {
        let head: Seq<int> = if b[0].0 == g {
            seq![b[0].1 as int]
        } else {
            seq![]
        };
        head + entries_of(b.drop_first(), g)
    }
}

/// `b` places exactly the statements after the frontier `curs`, each file's
/// statements in their own order.
pub open spec fn places_rest(sizes: Seq<usize>, curs: Seq<usize>, b: Seq<Idx>) -> bool {
    &&& forall|k: int| 0 <= k < b.len() ==> b[k].0 < sizes.len()
    &&& forall|g: int|
        0 <= g < sizes.len() ==> entries_of(b, g) == Seq::new(
            (sizes[g] - curs[g]) as nat,
            |s: int| curs[g] + s,
        )
}

/// `b` is an order-preserving interleaving of files of the given sizes: for
/// every file `f` the entries with first component `f` are `(f, 0), (f, 1), ...`
/// up to the file's size, and no other file occurs.
pub open spec fn preserves_order(sizes: Seq<usize>, b: Seq<Idx>) -> bool {
    places_rest(sizes, start(sizes), b)
}

proof fn lemma_entries_prepend(x: Idx, c: Seq<Idx>, g: int)
    ensures
        entries_of(seq![x] + c, g) == (if x.0 == g {
            seq![x.1 as int]
        } else {
            seq![]
        }) + entries_of(c, g),
{
    assert((seq![x] + c).drop_first() =~= c);
}

proof fn lemma_completions_empty(sizes: Seq<usize>, f: int)
    requires
        0 <= f <= sizes.len(),
        forall|g: int| 0 <= g < sizes.len() ==> sizes[g] == 0,
    ensures
        completions_from(sizes, start(sizes), f) == seq![Seq::<Idx>::empty()],
    decreases sizes.len() - f,
{
    if f < sizes.len() {
        lemma_completions_empty(sizes, f + 1);
        assert(seq![] + seq![Seq::<Idx>::empty()] =~= seq![Seq::<Idx>::empty()]);
    }
}

/// With no files, or only empty ones, the enumeration emits exactly one batch:
/// the empty one.
pub proof fn lemma_degenerate_input(sizes: Seq<usize>)
    requires
        forall|g: int| 0 <= g < sizes.len() ==> sizes[g] == 0,
    ensures
        interleavings(sizes) == seq![Seq::<Idx>::empty()],
{
    lemma_completions_empty(sizes, 0);
}

proof fn lemma_completions_places_rest(sizes: Seq<usize>, curs: Seq<usize>, f: int)
    requires
        frontier_wf(sizes, curs),
        sizes.len() <= usize::MAX,
        0 <= f,
    ensures
        forall|k: int|
            0 <= k < completions_from(sizes, curs, f).len() ==> places_rest(
                sizes,
                curs,
                #[trigger] completions_from(sizes, curs, f)[k],
            ),
    decreases remaining(sizes, curs), sizes.len() - f,
{
    let cs = completions_from(sizes, curs, f);
    if f >= sizes.len() {
        if all_placed(sizes, curs) {
            assert forall|g: int| 0 <= g < sizes.len() implies entries_of(Seq::<Idx>::empty(), g)
                == Seq::new((sizes[g] - curs[g]) as nat, |s: int| curs[g] + s) by {
                assert(Seq::new((sizes[g] - curs[g]) as nat, |s: int| curs[g] + s) =~= seq![]);
            }
        }
    } else {
        lemma_completions_places_rest(sizes, curs, f + 1);
        let rest = completions_from(sizes, curs, f + 1);
        if curs[f] < sizes[f] {
            let nx = advance(curs, f);
            let x: Idx = (f as usize, curs[f]);
            lemma_left_advance(sizes, curs, f, sizes.len() as int);
            lemma_completions_places_rest(sizes, nx, 0);
            let sub = completions(sizes, nx);
            let here = prefix_all(x, sub);
            assert(cs == here + rest);
            assert forall|k: int| 0 <= k < cs.len() implies places_rest(sizes, curs, #[trigger] cs[k]) by {
                if k < here.len() {
                    let c = sub[k];
                    assert(places_rest(sizes, nx, sub[k]));
                    assert(cs[k] == seq![x] + c);
                    assert forall|g: int| 0 <= g < sizes.len() implies entries_of(cs[k], g)
                        == Seq::new((sizes[g] - curs[g]) as nat, |s: int| curs[g] + s) by {
                        lemma_entries_prepend(x, c, g);
                        if g == f {
                            assert(entries_of(cs[k], g) =~= Seq::new(
                                (sizes[g] - curs[g]) as nat,
                                |s: int| curs[g] + s,
                            ));
                        } else {
                            assert(entries_of(cs[k], g) =~= entries_of(c, g));
                        }
                    }
                    assert forall|j: int| 0 <= j < cs[k].len() implies cs[k][j].0 < sizes.len() by {
                        if j > 0 {
                            assert(cs[k][j] == c[j - 1]);
                        }
                    }
                } else {
                    assert(cs[k] == rest[k - here.len()]);
                }
            }
        } else {
            assert(cs =~= rest);
        }
    }
}

/// Every emitted batch is an order-preserving interleaving of the files.
pub proof fn lemma_order_preservation(sizes: Seq<usize>, k: int)
    requires
        sizes.len() <= usize::MAX,
        0 <= k < interleavings(sizes).len(),
    ensures
        preserves_order(sizes, interleavings(sizes)[k]),
{
    lemma_completions_places_rest(sizes, start(sizes), 0);
}

proof fn lemma_completions_shape(sizes: Seq<usize>, curs: Seq<usize>, f: int)
    requires
        frontier_wf(sizes, curs),
        sizes.len() <= usize::MAX,
        0 <= f,
    ensures
        forall|k: int|
            0 <= k < completions_from(sizes, curs, f).len() ==> {
                let c = #[trigger] completions_from(sizes, curs, f)[k];
                &&& c.len() == 0 ==> all_placed(sizes, curs)
                &&& c.len() > 0 ==> f <= c[0].0 < sizes.len()
            },
    decreases remaining(sizes, curs), sizes.len() - f,
{
    let cs = completions_from(sizes, curs, f);
    if f < sizes.len() {
        lemma_completions_shape(sizes, curs, f + 1);
        let rest = completions_from(sizes, curs, f + 1);
        if curs[f] < sizes[f] {
            let x: Idx = (f as usize, curs[f]);
            let sub = completions(sizes, advance(curs, f));
            let here = prefix_all(x, sub);
            assert(cs == here + rest);
            assert forall|k: int| 0 <= k < cs.len() implies {
                let c = #[trigger] cs[k];
                &&& c.len() == 0 ==> all_placed(sizes, curs)
                &&& c.len() > 0 ==> f <= c[0].0 < sizes.len()
            } by {
                if k < here.len() {
                    assert(cs[k] == seq![x] + sub[k]);
                    assert(cs[k][0] == x);
                } else {
                    assert(cs[k] == rest[k - here.len()]);
                }
            }
        } else {
            assert(cs =~= rest);
        }
    }
}

proof fn lemma_completions_distinct(sizes: Seq<usize>, curs: Seq<usize>, f: int)
    requires
        frontier_wf(sizes, curs),
        sizes.len() <= usize::MAX,
        0 <= f,
    ensures
        forall|i: int, j: int|
            0 <= i < j < completions_from(sizes, curs, f).len() ==> #[trigger] completions_from(
                sizes,
                curs,
                f,
            )[i] != #[trigger] completions_from(sizes, curs, f)[j],
    decreases remaining(sizes, curs), sizes.len() - f,
{
    let cs = completions_from(sizes, curs, f);
    if f < sizes.len() {
        let rest = completions_from(sizes, curs, f + 1);
        if curs[f] < sizes[f] {
            let nx = advance(curs, f);
            let x: Idx = (f as usize, curs[f]);
            let sub = completions(sizes, nx);
            let here = prefix_all(x, sub);
            assert(cs == here + rest);
            lemma_left_advance(sizes, curs, f, sizes.len() as int);
            lemma_completions_distinct(sizes, curs, f + 1);
            lemma_completions_distinct(sizes, nx, 0);
            lemma_completions_shape(sizes, curs, f + 1);
            assert forall|i: int, j: int| 0 <= i < j < cs.len() implies #[trigger] cs[i]
                != #[trigger] cs[j] by {
                lemma_distinct_step(x, sub, rest, i, j);
                if j >= here.len() && i < here.len() {
                    let c = rest[j - here.len()];
                    if c.len() == 0 {
                        assert(!all_placed(sizes, curs));
                    } else {
                        assert(c[0].0 > f);
                    }
                }
            }
        } else {
            assert(cs =~= rest);
            lemma_completions_distinct(sizes, curs, f + 1);
        }
    }
}

proof fn lemma_distinct_step(x: Idx, sub: Seq<Seq<Idx>>, rest: Seq<Seq<Idx>>, i: int, j: int)
    requires
        0 <= i < j < sub.len() + rest.len(),
        forall|a: int, b: int| 0 <= a < b < sub.len() ==> #[trigger] sub[a] != #[trigger] sub[b],
        forall|a: int, b: int| 0 <= a < b < rest.len() ==> #[trigger] rest[a] != #[trigger] rest[b],
        i < sub.len() <= j ==> {
            let c = rest[j - sub.len()];
            c.len() == 0 || c[0] != x
        },
    ensures
        (prefix_all(x, sub) + rest)[i] != (prefix_all(x, sub) + rest)[j],
{
    let cs = prefix_all(x, sub) + rest;
    let n = sub.len();
    if j < n {
        assert(cs[i] == seq![x] + sub[i]);
        assert(cs[j] == seq![x] + sub[j]);
        assert(cs[i].drop_first() =~= sub[i]);
        assert(cs[j].drop_first() =~= sub[j]);
    } else if i < n {
        assert(cs[i] == seq![x] + sub[i]);
        assert(cs[i][0] == x);
        assert(cs[j] == rest[j - n]);
    } else {
        assert(cs[i] == rest[i - n]);
        assert(cs[j] == rest[j - n]);
    }
}

proof fn lemma_completions_complete(sizes: Seq<usize>, curs: Seq<usize>, f: int, b: Seq<Idx>)
    requires
        frontier_wf(sizes, curs),
        sizes.len() <= usize::MAX,
        0 <= f,
        places_rest(sizes, curs, b),
        b.len() == 0 || b[0].0 >= f,
    ensures
        completions_from(sizes, curs, f).contains(b),
    decreases remaining(sizes, curs), sizes.len() - f,
{
    let cs = completions_from(sizes, curs, f);
    if f >= sizes.len() {
        if b.len() > 0 {
            assert(b[0].0 < sizes.len());
        }
        assert forall|g: int| 0 <= g < sizes.len() implies curs[g] >= sizes[g] by {
            assert(entries_of(b, g).len() == 0);
            assert(Seq::new((sizes[g] - curs[g]) as nat, |s: int| curs[g] + s).len() == 0);
        }
        assert(b =~= Seq::<Idx>::empty());
        assert(cs[0] == b);
    } else {
        let rest = completions_from(sizes, curs, f + 1);
        let here = if curs[f] < sizes[f] {
            prefix_all((f as usize, curs[f]), completions(sizes, advance(curs, f)))
        } else {
            seq![]
        };
        assert(cs == here + rest);
        if b.len() == 0 || b[0].0 > f {
            lemma_completions_complete(sizes, curs, f + 1, b);
            let k = choose|k: int| 0 <= k < rest.len() && rest[k] == b;
            assert(cs[here.len() + k] == b);
        } else {
            let tail = b.drop_first();
            assert(b =~= seq![b[0]] + tail);
            lemma_entries_prepend(b[0], tail, f);
            let want = Seq::new((sizes[f] - curs[f]) as nat, |s: int| curs[f] + s);
            assert(entries_of(b, f) == want);
            assert(want.len() > 0 && want[0] == curs[f]);
            assert(curs[f] < sizes[f]);
            assert(b[0].1 == curs[f]);
            let nx = advance(curs, f);
            let x: Idx = (f as usize, curs[f]);
            assert(b[0] == x);
            assert forall|g: int| 0 <= g < sizes.len() implies entries_of(tail, g) == Seq::new(
                (sizes[g] - nx[g]) as nat,
                |s: int| nx[g] + s,
            ) by {
                lemma_entries_prepend(b[0], tail, g);
                if g == f {
                    assert(entries_of(tail, g) =~= want.drop_first());
                    assert(entries_of(tail, g) =~= Seq::new(
                        (sizes[g] - nx[g]) as nat,
                        |s: int| nx[g] + s,
                    ));
                } else {
                    assert(entries_of(b, g) == entries_of(tail, g));
                }
            }
            assert forall|k: int| 0 <= k < tail.len() implies tail[k].0 < sizes.len() by {
                assert(tail[k] == b[k + 1]);
            }
            lemma_left_advance(sizes, curs, f, sizes.len() as int);
            lemma_completions_complete(sizes, nx, 0, tail);
            let sub = completions(sizes, nx);
            let k = choose|k: int| 0 <= k < sub.len() && sub[k] == tail;
            assert(here[k] == seq![x] + tail);
            assert(cs[k] == b);
        }
    }
}

/// The enumeration emits exactly the order-preserving interleavings of the
/// files, each of them once.
pub proof fn lemma_coverage(sizes: Seq<usize>)
    requires
        sizes.len() <= usize::MAX,
    ensures
        forall|b: Seq<Idx>| #[trigger]
            interleavings(sizes).contains(b) <==> preserves_order(sizes, b),
        forall|i: int, j: int|
            0 <= i < j < interleavings(sizes).len() ==> #[trigger] interleavings(sizes)[i]
                != #[trigger] interleavings(sizes)[j],
{
    let z = start(sizes);
    lemma_completions_distinct(sizes, z, 0);
    lemma_completions_places_rest(sizes, z, 0);
    assert forall|b: Seq<Idx>| #[trigger]
        interleavings(sizes).contains(b) <==> preserves_order(sizes, b) by {
        if preserves_order(sizes, b) {
            lemma_completions_complete(sizes, z, 0, b);
        }
    }
}

pub open spec fn factorial(n: nat) -> nat
    decreases n,
{
    if n == 0 {
        1
    } else {
        n * factorial((n - 1) as nat)
    }
}

/// The number of statements of files `0..n`.
pub open spec fn size_sum(sizes: Seq<usize>, n: int) -> nat
    decreases n,
{
    if n <= 0 {
        0
    } else {
        size_sum(sizes, n - 1) + sizes[n - 1] as nat
    }
}

/// The product of the factorials of the sizes of files `0..n`.
pub open spec fn size_fact_product(sizes: Seq<usize>, n: int) -> nat
    decreases n,
{
    if n <= 0 {
        1
    } else {
        size_fact_product(sizes, n - 1) * factorial(sizes[n - 1] as nat)
    }
}

/// The multinomial coefficient (Σ sizes)! / Π (sizes!).
pub open spec fn multinomial(sizes: Seq<usize>) -> nat {
    factorial(size_sum(sizes, sizes.len() as int)) / size_fact_product(sizes, sizes.len() as int)
}

/// The number of statements of file `g` still to be placed.
spec fn rest_of(sizes: Seq<usize>, curs: Seq<usize>, g: int) -> nat {
    if curs[g] <= sizes[g] {
        (sizes[g] - curs[g]) as nat
    } else {
        0
    }
}

/// The product of the factorials of what is left of files `0..n`.
spec fn rest_fact_product(sizes: Seq<usize>, curs: Seq<usize>, n: int) -> nat
    decreases n,
{
    if n <= 0 {
        1
    } else {
        rest_fact_product(sizes, curs, n - 1) * factorial(rest_of(sizes, curs, n - 1))
    }
}

proof fn lemma_factorial_positive(n: nat)
    ensures
        factorial(n) > 0,
    decreases n,
{
    if n > 0 {
        lemma_factorial_positive((n - 1) as nat);
        assert(n * factorial((n - 1) as nat) > 0) by (nonlinear_arith)
            requires
                n > 0,
                factorial((n - 1) as nat) > 0,
        ;
    }
}

proof fn lemma_rest_product_positive(sizes: Seq<usize>, curs: Seq<usize>, n: int)
    ensures
        rest_fact_product(sizes, curs, n) > 0,
    decreases n,
{
    if n > 0 {
        lemma_rest_product_positive(sizes, curs, n - 1);
        let a = rest_fact_product(sizes, curs, n - 1);
        let b = factorial(rest_of(sizes, curs, n - 1));
        lemma_factorial_positive(rest_of(sizes, curs, n - 1));
        assert(a * b > 0) by (nonlinear_arith)
            requires
                a > 0,
                b > 0,
        ;
    }
}

proof fn lemma_left_zero(sizes: Seq<usize>, curs: Seq<usize>, n: int)
    requires
        frontier_wf(sizes, curs),
        0 <= n <= sizes.len(),
    ensures
        left(sizes, curs, n) == 0 <==> forall|g: int| 0 <= g < n ==> curs[g] >= sizes[g],
        left(sizes, curs, n) == 0 ==> rest_fact_product(sizes, curs, n) == 1,
    decreases n,
{
    if n > 0 {
        lemma_left_zero(sizes, curs, n - 1);
        if left(sizes, curs, n) == 0 {
            assert(rest_of(sizes, curs, n - 1) == 0);
            assert(factorial(0) == 1);
        }
    }
}

proof fn lemma_rest_product_advance(sizes: Seq<usize>, curs: Seq<usize>, f: int, n: int)
    requires
        frontier_wf(sizes, curs),
        0 <= f < sizes.len(),
        curs[f] < sizes[f],
        0 <= n <= sizes.len(),
    ensures
        rest_fact_product(sizes, curs, n) == rest_fact_product(sizes, advance(curs, f), n) * (if f
            < n {
            rest_of(sizes, curs, f)
        } else {
            1
        }),
    decreases n,
{
    if n > 0 {
        lemma_rest_product_advance(sizes, curs, f, n - 1);
        let nx = advance(curs, f);
        let a = rest_fact_product(sizes, nx, n - 1);
        if n - 1 == f {
            let r = rest_of(sizes, curs, f);
            assert(rest_of(sizes, nx, f) == r - 1);
            assert(factorial(r) == r * factorial((r - 1) as nat));
            assert(a * (r * factorial((r - 1) as nat)) == (a * factorial((r - 1) as nat)) * r)
                by (nonlinear_arith);
        } else {
            let t = factorial(rest_of(sizes, curs, n - 1));
            assert(rest_of(sizes, nx, n - 1) == rest_of(sizes, curs, n - 1));
            if f < n - 1 {
                let r = rest_of(sizes, curs, f);
                assert((a * r) * t == (a * t) * r) by (nonlinear_arith);
            }
        }
    }
}

proof fn lemma_left_split(sizes: Seq<usize>, curs: Seq<usize>, f: int)
    requires
        0 <= f < sizes.len(),
    ensures
        left(sizes, curs, f + 1) == left(sizes, curs, f) + rest_of(sizes, curs, f),
{
}

proof fn lemma_completions_count(sizes: Seq<usize>, curs: Seq<usize>, f: int)
    requires
        frontier_wf(sizes, curs),
        sizes.len() <= usize::MAX,
        0 <= f <= sizes.len(),
    ensures
        ({
            let rr = remaining(sizes, curs);
            let n = completions_from(sizes, curs, f).len();
            let p = rest_fact_product(sizes, curs, sizes.len() as int);
            if rr == 0 {
                n == 1
            } else {
                n * p == factorial((rr - 1) as nat) * (rr - left(sizes, curs, f))
            }
        }),
    decreases remaining(sizes, curs), sizes.len() - f,
{
    let nn = sizes.len() as int;
    let rr = remaining(sizes, curs);
    let p = rest_fact_product(sizes, curs, nn);
    let cs = completions_from(sizes, curs, f);
    lemma_left_zero(sizes, curs, nn);
    if f == nn {
        if rr > 0 {
            assert(!all_placed(sizes, curs));
            assert(cs.len() == 0);
            assert(0 * p == factorial((rr - 1) as nat) * 0) by (nonlinear_arith);
        }
    } else {
        lemma_completions_count(sizes, curs, f + 1);
        lemma_left_split(sizes, curs, f);
        let rest = completions_from(sizes, curs, f + 1);
        if curs[f] < sizes[f] {
            let nx = advance(curs, f);
            let rf = rest_of(sizes, curs, f);
            lemma_left_advance(sizes, curs, f, nn);
            lemma_completions_count(sizes, nx, 0);
            lemma_rest_product_advance(sizes, curs, f, nn);
            lemma_left_zero(sizes, nx, nn);
            let sub = completions(sizes, nx);
            let here = prefix_all((f as usize, curs[f]), sub);
            assert(cs == here + rest);
            let p1 = rest_fact_product(sizes, nx, nn);
            let fr = factorial((rr - 1) as nat);
            assert(left(sizes, nx, 0) == 0);
            assert(remaining(sizes, nx) == rr - 1);
            if rr - 1 > 0 {
                let f2 = factorial((rr - 2) as nat);
                assert(fr == (rr - 1) * f2);
                assert(sub.len() * p1 == f2 * (rr - 1 - 0));
                assert(sub.len() * p1 == fr) by (nonlinear_arith)
                    requires
                        fr == (rr - 1) * f2,
                        sub.len() * p1 == f2 * (rr - 1 - 0),
                ;
            } else {
                assert(sub.len() == 1);
                assert(p1 == 1);
                assert(fr == 1);
            }
            assert(sub.len() * p1 == fr);
            assert(p == p1 * rf);
            let lf = left(sizes, curs, f);
            assert(rest.len() * p == fr * (rr - lf - rf));
            assert((sub.len() + rest.len()) * p == fr * (rr - lf)) by (nonlinear_arith)
                requires
                    sub.len() * p1 == fr,
                    p == p1 * rf,
                    rest.len() * p == fr * (rr - lf - rf),
            ;
        } else {
            assert(cs =~= rest);
        }
    }
}

proof fn lemma_start_sums(sizes: Seq<usize>, n: int)
    requires
        0 <= n <= sizes.len(),
    ensures
        left(sizes, start(sizes), n) == size_sum(sizes, n),
        rest_fact_product(sizes, start(sizes), n) == size_fact_product(sizes, n),
    decreases n,
{
    if n > 0 {
        lemma_start_sums(sizes, n - 1);
    }
}

/// The enumeration emits as many batches as the multinomial coefficient
/// (Σ sizes)! / Π (sizes!) gives, and that division leaves no remainder.
pub proof fn lemma_count(sizes: Seq<usize>)
    requires
        sizes.len() <= usize::MAX,
    ensures
        interleavings(sizes).len() * size_fact_product(sizes, sizes.len() as int) == factorial(
            size_sum(sizes, sizes.len() as int),
        ),
        interleavings(sizes).len() == multinomial(sizes),
{
    let nn = sizes.len() as int;
    let z = start(sizes);
    lemma_completions_count(sizes, z, 0);
    lemma_start_sums(sizes, nn);
    lemma_left_zero(sizes, z, nn);
    let t = size_sum(sizes, nn);
    let n = interleavings(sizes).len();
    let p = size_fact_product(sizes, nn);
    if t > 0 {
        let f1 = factorial((t - 1) as nat);
        assert(factorial(t) == t * f1);
        assert(n * p == f1 * (t - 0));
        assert(n * p == factorial(t)) by (nonlinear_arith)
            requires
                factorial(t) == t * f1,
                n * p == f1 * (t - 0),
        ;
    } else {
        assert(n == 1);
        assert(p == 1);
        assert(factorial(0) == 1);
    }
    assert(n * p == factorial(t));
    lemma_rest_product_positive(sizes, z, nn);
    lemma_div_by_multiple(n as int, p as int);
}

} // verus!
