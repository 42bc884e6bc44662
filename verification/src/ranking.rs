//! Putting indices in order: a merge sort over any strict total order.

use vstd::prelude::*;

verus! {

/// Whether `before` orders the indices below `n` strictly and totally.
pub open spec fn strict_order(n: int, before: spec_fn(int, int) -> bool) -> bool {
    &&& forall|i: int| 0 <= i < n ==> !#[trigger] before(i, i)
    &&& forall|i: int, j: int|
        0 <= i < n && 0 <= j < n && i != j ==> #[trigger] before(i, j) || before(j, i)
    &&& forall|i: int, j: int, k: int|
        0 <= i < n && 0 <= j < n && 0 <= k < n && #[trigger] before(i, j) && #[trigger] before(
            j,
            k,
        ) ==> before(i, k)
}

/// Whether `order` lists each index below `n` once, each before those that follow it.
pub open spec fn is_ranking(order: Seq<usize>, n: int, before: spec_fn(int, int) -> bool) -> bool {
    &&& order.len() == n
    &&& forall|k: int| 0 <= k < n ==> 0 <= #[trigger] order[k] < n
    &&& forall|p: int, q: int| 0 <= p < q < n ==> before(#[trigger] order[p] as int, #[trigger] order[q] as int)
}

/// A ranking of the indices below `n` holds every one of them.
pub proof fn lemma_ranking_holds_all(order: Seq<usize>, n: int, before: spec_fn(int, int) -> bool, x: usize)
    requires
        strict_order(n, before),
        is_ranking(order, n, before),
        x < n,
    ensures
        order.contains(x),
{
    let ints = order.map_values(|u: usize| u as int);
    assert(ints.no_duplicates()) by {
        assert forall|p: int, q: int| 0 <= p < ints.len() && 0 <= q < ints.len() && p != q implies ints[p]
            != ints[q] by {
            if p < q {
                assert(before(order[p] as int, order[q] as int));
            } else {
                assert(before(order[q] as int, order[p] as int));
            }
        }
    }
    ints.unique_seq_to_set();
    let range = vstd::set_lib::set_int_range(0, n);
    vstd::set_lib::lemma_int_range(0, n);
    assert forall|v: int| ints.to_set().contains(v) implies range.contains(v) by {
        let k = choose|k: int| 0 <= k < ints.len() && ints[k] == v;
        assert(0 <= order[k] < n);
    }
    vstd::set_lib::lemma_subset_equality(ints.to_set(), range);
    assert(range.contains(x as int));
    assert(ints.to_set().contains(x as int));
    let k = choose|k: int| 0 <= k < ints.len() && ints[k] == x as int;
    assert(order[k] == x);
}

/// There is only one ranking.
pub proof fn law_ranking_unique(a: Seq<usize>, b: Seq<usize>, n: int, before: spec_fn(int, int) -> bool)
    requires
        strict_order(n, before),
        is_ranking(a, n, before),
        is_ranking(b, n, before),
    ensures
        a == b,
{
    assert forall|k: int| 0 <= k < n implies a[k] == b[k] by {
        lemma_ranking_same_place(a, b, n, before, k);
    }
    assert(a =~= b);
}

proof fn lemma_ranking_same_place(
    a: Seq<usize>,
    b: Seq<usize>,
    n: int,
    before: spec_fn(int, int) -> bool,
    k: int,
)
    requires
        strict_order(n, before),
        is_ranking(a, n, before),
        is_ranking(b, n, before),
        0 <= k < n,
    ensures
        a[k] == b[k],
    decreases k,
{
    assert forall|m: int| 0 <= m < k implies a[m] == b[m] by {
        lemma_ranking_same_place(a, b, n, before, m);
    }
    lemma_ranking_holds_all(b, n, before, a[k]);
    lemma_ranking_holds_all(a, n, before, b[k]);
    let p = choose|p: int| 0 <= p < b.len() && b[p] == a[k];
    let q = choose|q: int| 0 <= q < a.len() && a[q] == b[k];
    if p < k {
        assert(a[p] == b[p]);
        assert(before(a[p] as int, a[k] as int));
    }
    if q < k {
        assert(a[q] == b[q]);
        assert(before(b[q] as int, b[k] as int));
    }
    if p > k && q > k {
        assert(before(b[k] as int, b[p] as int));
        assert(before(a[k] as int, a[q] as int));
    }
}

/// Whether `v` lists indices from `lo` up to `hi`, each before those that follow it.
spec fn in_order(v: Seq<usize>, lo: int, hi: int, before: spec_fn(int, int) -> bool) -> bool {
    &&& forall|k: int| 0 <= k < v.len() ==> lo <= #[trigger] v[k] < hi
    &&& forall|p: int, q: int|
        0 <= p < q < v.len() ==> before(#[trigger] v[p] as int, #[trigger] v[q] as int)
}

fn merge<F: Fn(usize, usize) -> bool>(
    a: &Vec<usize>,
    b: &Vec<usize>,
    before: &F,
    Ghost(bounds): Ghost<(int, int, int, int)>,
    Ghost(rel): Ghost<spec_fn(int, int) -> bool>,
) -> (out: Vec<usize>)
    requires
        0 <= bounds.0 <= bounds.1 <= bounds.2 <= bounds.3 <= usize::MAX,
        strict_order(bounds.3, rel),
        in_order(a@, bounds.0, bounds.1, rel),
        in_order(b@, bounds.1, bounds.2, rel),
        a@.len() + b@.len() <= usize::MAX,
        forall|i: usize, j: usize| i < bounds.3 && j < bounds.3 ==> call_requires(*before, (i, j)),
        forall|i: usize, j: usize, r: bool|
            i < bounds.3 && j < bounds.3 && call_ensures(*before, (i, j), r) ==> r == rel(i as int, j as int),
    ensures
        out@.len() == a@.len() + b@.len(),
        in_order(out@, bounds.0, bounds.2, rel),
{
    let mut out: Vec<usize> = Vec::new();
    let mut i: usize = 0;
    let mut j: usize = 0;
    while i < a.len() || j < b.len()
        invariant
            i <= a@.len(),
            j <= b@.len(),
            a@.len() + b@.len() <= usize::MAX,
            out@.len() == i + j,
            0 <= bounds.0 <= bounds.1 <= bounds.2 <= bounds.3 <= usize::MAX,
            strict_order(bounds.3, rel),
            in_order(a@, bounds.0, bounds.1, rel),
            in_order(b@, bounds.1, bounds.2, rel),
            in_order(out@, bounds.0, bounds.2, rel),
            forall|k: int, p: int|
                0 <= k < out@.len() && i <= p < a@.len() ==> rel(#[trigger] out@[k] as int, #[trigger] a@[p] as int),
            forall|k: int, q: int|
                0 <= k < out@.len() && j <= q < b@.len() ==> rel(#[trigger] out@[k] as int, #[trigger] b@[q] as int),
            forall|x: usize, y: usize| x < bounds.3 && y < bounds.3 ==> call_requires(*before, (x, y)),
            forall|x: usize, y: usize, r: bool|
                x < bounds.3 && y < bounds.3 && call_ensures(*before, (x, y), r) ==> r == rel(
                    x as int,
                    y as int,
                ),
        decreases a@.len() - i + b@.len() - j,
    {
        let take_left: bool = if i >= a.len() {
            false
        } else if j >= b.len() {
            true
        } else {
            before(a[i], b[j])
        };
        if take_left {
            proof {
                assert forall|q: int| j <= q < b@.len() implies rel(a@[i as int] as int, #[trigger] b@[q] as int) by {
                    if q > j {
                        assert(rel(a@[i as int] as int, b@[j as int] as int));
                        assert(rel(b@[j as int] as int, b@[q] as int));
                    }
                }
            }
            out.push(a[i]);
            i += 1;
        } else {
            proof {
                assert forall|p: int| i <= p < a@.len() implies rel(b@[j as int] as int, #[trigger] a@[p] as int) by {
                    assert(rel(b@[j as int] as int, a@[i as int] as int));
                    if p > i {
                        assert(rel(a@[i as int] as int, a@[p] as int));
                    }
                }
            }
            out.push(b[j]);
            j += 1;
        }
    }
    out
}

fn sort_range<F: Fn(usize, usize) -> bool>(
    lo: usize,
    hi: usize,
    before: &F,
    Ghost(n): Ghost<int>,
    Ghost(rel): Ghost<spec_fn(int, int) -> bool>,
) -> (out: Vec<usize>)
    requires
        lo <= hi <= n <= usize::MAX,
        strict_order(n, rel),
        forall|i: usize, j: usize| i < n && j < n ==> call_requires(*before, (i, j)),
        forall|i: usize, j: usize, r: bool|
            i < n && j < n && call_ensures(*before, (i, j), r) ==> r == rel(i as int, j as int),
    ensures
        out@.len() == hi - lo,
        in_order(out@, lo as int, hi as int, rel),
    decreases hi - lo,
{
    if hi - lo <= 1 {
        let mut out: Vec<usize> = Vec::new();
        if lo < hi {
            out.push(lo);
        }
        out
    } else {
        let mid: usize = lo + (hi - lo) / 2;
        let left = sort_range(lo, mid, before, Ghost(n), Ghost(rel));
        let right = sort_range(mid, hi, before, Ghost(n), Ghost(rel));
        merge(&left, &right, before, Ghost((lo as int, mid as int, hi as int, n)), Ghost(rel))
    }
}

/// The indices below `n` in the order that `before` decides.
pub(crate) fn rank<F: Fn(usize, usize) -> bool>(
    n: usize,
    before: &F,
    Ghost(rel): Ghost<spec_fn(int, int) -> bool>,
) -> (order: Vec<usize>)
    requires
        strict_order(n as int, rel),
        forall|i: usize, j: usize| i < n && j < n ==> call_requires(*before, (i, j)),
        forall|i: usize, j: usize, r: bool|
            i < n && j < n && call_ensures(*before, (i, j), r) ==> r == rel(i as int, j as int),
    ensures
        is_ranking(order@, n as int, rel),
{
    sort_range(0, n, before, Ghost(n as int), Ghost(rel))
}

} // verus!
