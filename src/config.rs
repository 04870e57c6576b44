//! Checks on the cluster list given on the command line.
use vstd::prelude::*;

verus! {

/// The scheme that a cluster URL must carry.
pub open spec fn mysql_scheme() -> Seq<char> {
    seq!['m', 'y', 's', 'q', 'l', ':', '/', '/']
}

pub open spec fn has_prefix(s: Seq<char>, p: Seq<char>) -> bool {
    p.len() <= s.len() && s.subrange(0, p.len() as int) == p
}

/// The URL with the scheme put in front when it lacks it.
pub open spec fn normalized(url: Seq<char>) -> Seq<char> {
    if has_prefix(url, mysql_scheme()) {
        url
    } else {
        mysql_scheme() + url
    }
}

/// Relies on str::starts_with: whether `s` begins with `p`.
#[verifier::external_body]
fn starts_with(s: &str, p: &str) -> (r: bool)
    ensures
        r == has_prefix(s@, p@),
{
    s.starts_with(p)
}

/// Relies on the `concat` of a slice of `&str`: the pieces joined in order.
#[verifier::external_body]
fn join2(a: &str, b: &str) -> (r: String)
    ensures
        r@ == a@ + b@,
{
    [a, b].concat()
}

/// Each URL with the `mysql://` scheme put in front when it lacks it, in order.
pub fn normalize_db_urls(urls: &Vec<String>) -> (r: Vec<String>)
    ensures
        r@.len() == urls@.len(),
        forall|k: int| 0 <= k < urls@.len() ==> #[trigger] r@[k]@ == normalized(urls@[k]@),
{
    let scheme = "mysql://";
    proof {
        reveal_strlit("mysql://");
        assert(scheme@ =~= mysql_scheme());
    }
    let mut r: Vec<String> = Vec::with_capacity(urls.len());
    let mut k: usize = 0;
    while k < urls.len()
        invariant
            k <= urls@.len(),
            scheme@ == mysql_scheme(),
            r@.len() == k,
            forall|j: int| 0 <= j < k ==> #[trigger] r@[j]@ == normalized(urls@[j]@),
        decreases urls@.len() - k,
    {
        let url = urls[k].as_str();
        if starts_with(url, scheme) {
            r.push(urls[k].clone());
        } else {
            r.push(join2(scheme, url));
        }
        k += 1;
    }
    r
}

/// Two cluster targets are the same instance: same host, same port.
pub open spec fn same_target(a: (Seq<char>, u16), b: (Seq<char>, u16)) -> bool {
    a.0 == b.0 && a.1 == b.1
}

pub open spec fn target_view(t: (String, u16)) -> (Seq<char>, u16) {
    (t.0@, t.1)
}

/// The target at `k` repeats one before it.
pub open spec fn repeats_earlier(ts: Seq<(String, u16)>, k: int) -> bool {
    exists|j: int| 0 <= j < k && same_target(target_view(ts[j]), target_view(ts[k]))
}

/// The position of the first target that repeats an earlier one (same host
/// and port), or `None` when all are distinct.
pub fn first_duplicate(targets: &Vec<(String, u16)>) -> (r: Option<usize>)
    ensures
        r is None ==> forall|k: int| 0 <= k < targets@.len() ==> !repeats_earlier(targets@, k),
        r is Some ==> {
            let k = r->Some_0;
            &&& k < targets@.len()
            &&& repeats_earlier(targets@, k as int)
            &&& forall|i: int| 0 <= i < k ==> !repeats_earlier(targets@, i)
        },
{
    let mut k: usize = 0;
    while k < targets.len()
        invariant
            k <= targets@.len(),
            forall|i: int| 0 <= i < k ==> !repeats_earlier(targets@, i),
        decreases targets@.len() - k,
    {
        let mut j: usize = 0;
        while j < k
            invariant
                j <= k < targets@.len(),
                forall|i: int| 0 <= i < k ==> !repeats_earlier(targets@, i),
                forall|i: int|
                    0 <= i < j ==> !same_target(target_view(targets@[i]), target_view(targets@[k as int])),
            decreases k - j,
        {
            if targets[j].0 == targets[k].0 && targets[j].1 == targets[k].1 {
                assert(same_target(target_view(targets@[j as int]), target_view(targets@[k as int])));
                return Some(k);
            }
            j += 1;
        }
        k += 1;
    }
    None
}

} // verus!
