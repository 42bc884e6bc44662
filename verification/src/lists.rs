//! Lists of search rows: reversing, filtering, and keeping each id once.

use crate::domain::Hit;
use crate::score::Score;
use std::collections::HashSet;
use vstd::prelude::*;

verus! {

/// The list in reverse.
pub fn reversed<T>(list: Vec<T>) -> (r: Vec<T>)
    ensures
        r@ == list@.reverse(),
{
    let ghost all = list@;
    let mut rest = list;
    let mut out: Vec<T> = Vec::new();
    while rest.len() > 0
        invariant
            rest@ =~= all.take(all.len() - out@.len()),
            out@.len() <= all.len(),
            out@ =~= all.reverse().take(out@.len() as int),
        decreases rest@.len(),
    {
        if let Some(x) = rest.pop() {
            out.push(x);
        }
    }
    assert(out@ =~= all.reverse());
    out
}

/// Whether a score is at least another: false where one is not a number.
pub open spec fn at_least(s: Score, min: Score) -> bool {
    !s.nan() && !min.nan() && s.rank() >= min.rank()
}

fn is_at_least(s: &Score, min: &Score) -> (r: bool)
    ensures
        r == at_least(*s, *min),
{
    !s.is_nan() && !min.is_nan() && !s.is_below(min)
}

/// The rows that score at least `min`, in their order.
pub open spec fn reaching(hits: Seq<Hit>, min: Score) -> Seq<Hit> {
    hits.filter(|h: Hit| at_least(h.score, min))
}

/// Keeps the rows that score at least `min`, in their order.
pub fn keep_reaching(hits: Vec<Hit>, min: Score) -> (r: Vec<Hit>)
    ensures
        r@ == reaching(hits@, min),
{
    let ghost all = hits@;
    let mut stack = reversed(hits);
    let mut out: Vec<Hit> = Vec::new();
    let ghost mut done: int = 0;
    proof {
        reveal(Seq::filter);
        assert(reaching(all.take(0), min) =~= Seq::<Hit>::empty());
    }
    while stack.len() > 0
        invariant
            0 <= done <= all.len(),
            stack@ =~= all.skip(done).reverse(),
            out@ == reaching(all.take(done), min),
        decreases stack@.len(),
    {
        if let Some(h) = stack.pop() {
            proof {
                reveal(Seq::filter);
                assert(h == all[done]);
                assert(all.take(done + 1).drop_last() =~= all.take(done));
                assert(all.take(done + 1).last() == h);
                done = done + 1;
            }
            if is_at_least(&h.score, &min) {
                out.push(h);
            }
        }
    }
    assert(all.take(done) =~= all);
    out
}

/// Whether a row with this id is in the list.
pub open spec fn has_id(hits: Seq<Hit>, id: u64) -> bool {
    exists|k: int| 0 <= k < hits.len() && (#[trigger] hits[k]).id == id
}

/// The first row of each id, in their order, without the one to leave out.
pub open spec fn distinct(hits: Seq<Hit>, exclude: Option<u64>) -> Seq<Hit>
    decreases hits.len(),
{
    if hits.len() == 0 {
        Seq::empty()
    } else {
        let front = distinct(hits.drop_last(), exclude);
        let h = hits.last();
        if exclude == Some(h.id) || has_id(front, h.id) {
            front
        } else {
            front.push(h)
        }
    }
}

/// The first `limit` entries of a list, or all where there are fewer.
pub open spec fn first_of<T>(list: Seq<T>, limit: int) -> Seq<T> {
    if limit < list.len() {
        list.take(limit)
    } else {
        list
    }
}

proof fn lemma_distinct_grows(hits: Seq<Hit>, exclude: Option<u64>, n: int)
    requires
        0 <= n <= hits.len(),
    ensures
        distinct(hits.take(n), exclude).len() <= distinct(hits, exclude).len(),
        distinct(hits, exclude).take(distinct(hits.take(n), exclude).len() as int) == distinct(
            hits.take(n),
            exclude,
        ),
    decreases hits.len() - n,
{
    let part = distinct(hits.take(n), exclude);
    let all = distinct(hits, exclude);
    if n < hits.len() {
        lemma_distinct_grows(hits.drop_last(), exclude, n);
        assert(hits.drop_last().take(n) =~= hits.take(n));
        let front = distinct(hits.drop_last(), exclude);
        assert(all.take(part.len() as int) =~= front.take(part.len() as int));
    } else {
        assert(hits.take(n) =~= hits);
        assert(all.take(part.len() as int) =~= part);
    }
}

/// Keeps the first `limit` rows of different ids, leaving out one id where asked to.
pub fn keep_distinct(hits: Vec<Hit>, exclude: Option<u64>, limit: usize) -> (r: Vec<Hit>)
    ensures
        r@ == first_of(distinct(hits@, exclude), limit as int),
{
    broadcast use vstd::std_specs::hash::group_hash_axioms;

    let ghost all = hits@;
    let mut stack = reversed(hits);
    let mut seen: HashSet<u64> = HashSet::new();
    let mut out: Vec<Hit> = Vec::new();
    let ghost mut done: int = 0;
    proof {
        assert(all.take(0) =~= Seq::<Hit>::empty());
        assert(distinct(all.take(0), exclude) =~= Seq::<Hit>::empty());
    }
    while stack.len() > 0 && out.len() < limit
        invariant
            0 <= done <= all.len(),
            stack@ =~= all.skip(done).reverse(),
            out@ == distinct(all.take(done), exclude),
            out@.len() <= limit,
            forall|id: u64| #[trigger] seen@.contains(id) <==> has_id(out@, id),
        decreases stack@.len(),
    {
        broadcast use vstd::std_specs::hash::group_hash_axioms;

        if let Some(h) = stack.pop() {
            proof {
                assert(h == all[done]);
                assert(all.take(done + 1).drop_last() =~= all.take(done));
                assert(all.take(done + 1).last() == h);
                done = done + 1;
            }
            let skip = match exclude {
                Some(id) => id == h.id,
                None => false,
            };
            if !skip && !seen.contains(&h.id) {
                let ghost before = out@;
                let ghost old_seen = seen@;
                seen.insert(h.id);
                out.push(h);
                proof {
                    assert forall|id: u64| #[trigger] seen@.contains(id) <==> has_id(out@, id) by {
                        if has_id(before, id) {
                            let k = choose|k: int| 0 <= k < before.len() && (#[trigger] before[k]).id == id;
                            assert(out@[k].id == id);
                        }
                        if id == h.id {
                            assert(out@[before.len() as int].id == id);
                        }
                        if has_id(out@, id) {
                            let k = choose|k: int| 0 <= k < out@.len() && (#[trigger] out@[k]).id == id;
                            if k < before.len() {
                                assert(before[k].id == id);
                            }
                        }
                        assert(old_seen.contains(id) <==> has_id(before, id));
                    }
                }
            }
        }
    }
    proof {
        lemma_distinct_grows(all, exclude, done);
        if stack@.len() == 0 {
            assert(all.take(done) =~= all);
            assert(distinct(all, exclude).take(out@.len() as int) =~= distinct(all, exclude));
        } else {
            assert(out@.len() == limit);
            if limit == distinct(all, exclude).len() {
                assert(distinct(all, exclude).take(limit as int) =~= distinct(all, exclude));
            }
        }
    }
    out
}

proof fn lemma_distinct_ids(hits: Seq<Hit>, exclude: Option<u64>, p: int, q: int)
    requires
        0 <= p < q < distinct(hits, exclude).len(),
    ensures
        distinct(hits, exclude)[p].id != distinct(hits, exclude)[q].id,
    decreases hits.len(),
{
    let front = distinct(hits.drop_last(), exclude);
    if q < front.len() {
        lemma_distinct_ids(hits.drop_last(), exclude, p, q);
    } else {
        assert(!has_id(front, hits.last().id));
        assert(front[p].id != hits.last().id);
    }
}

proof fn lemma_distinct_excludes(hits: Seq<Hit>, exclude: Option<u64>, p: int)
    requires
        0 <= p < distinct(hits, exclude).len(),
    ensures
        exclude != Some(distinct(hits, exclude)[p].id),
        exists|k: int| 0 <= k < hits.len() && hits[k] == distinct(hits, exclude)[p],
    decreases hits.len(),
{
    let front = distinct(hits.drop_last(), exclude);
    if p < front.len() {
        lemma_distinct_excludes(hits.drop_last(), exclude, p);
        let k = choose|k: int| 0 <= k < hits.drop_last().len() && hits.drop_last()[k] == front[p];
        assert(hits[k] == front[p]);
    } else {
        assert(hits[hits.len() - 1] == distinct(hits, exclude)[p]);
    }
}

/// What a search returns holds each id at most once, never the id left out, at most `limit` rows,
/// and only rows that were found.
pub proof fn law_results_distinct(hits: Seq<Hit>, exclude: Option<u64>, limit: nat)
    ensures
        first_of(distinct(hits, exclude), limit as int).len() <= limit,
        forall|p: int, q: int|
            0 <= p < q < first_of(distinct(hits, exclude), limit as int).len() ==> (#[trigger] first_of(
                distinct(hits, exclude),
                limit as int,
            )[p]).id != (#[trigger] first_of(distinct(hits, exclude), limit as int)[q]).id,
        forall|p: int|
            0 <= p < first_of(distinct(hits, exclude), limit as int).len() ==> {
                let h = #[trigger] first_of(distinct(hits, exclude), limit as int)[p];
                exclude != Some(h.id) && hits.contains(h)
            },
{
    let kept = distinct(hits, exclude);
    let r = first_of(kept, limit as int);
    assert forall|p: int, q: int| 0 <= p < q < r.len() implies (#[trigger] r[p]).id != (#[trigger] r[q]).id by {
        lemma_distinct_ids(hits, exclude, p, q);
    }
    assert forall|p: int| 0 <= p < r.len() implies exclude != Some((#[trigger] r[p]).id) && hits.contains(r[p]) by {
        lemma_distinct_excludes(hits, exclude, p);
    }
}

/// Every row of a similarity answer reaches the least score, and none that does is left out.
pub proof fn law_reaching(hits: Seq<Hit>, min: Score, h: Hit)
    ensures
        reaching(hits, min).contains(h) <==> hits.contains(h) && at_least(h.score, min),
{
    let f = |h: Hit| at_least(h.score, min);
    if reaching(hits, min).contains(h) {
        let k = choose|k: int| 0 <= k < reaching(hits, min).len() && reaching(hits, min)[k] == h;
        hits.lemma_filter_contains_rev(f, h);
        hits.lemma_filter_pred(f, k);
    }
    if hits.contains(h) && at_least(h.score, min) {
        let k = choose|k: int| 0 <= k < hits.len() && hits[k] == h;
        hits.lemma_filter_contains(f, k);
    }
}

/// Whether `at` are places in a list of `n` entries, from front to back.
pub open spec fn are_places(at: Seq<int>, n: int) -> bool {
    &&& forall|k: int| 0 <= k < at.len() ==> 0 <= #[trigger] at[k] < n
    &&& forall|j: int, k: int| 0 <= j < k < at.len() ==> #[trigger] at[j] < #[trigger] at[k]
}

/// The places of the entries that a filter keeps.
pub proof fn lemma_filter_places<A>(list: Seq<A>, pred: spec_fn(A) -> bool) -> (at: Seq<int>)
    ensures
        are_places(at, list.len() as int),
        at.len() == list.filter(pred).len(),
        forall|k: int| 0 <= k < at.len() ==> list.filter(pred)[k] == list[#[trigger] at[k]],
        forall|i: int| 0 <= i < list.len() ==> (#[trigger] at.contains(i) <==> pred(list[i])),
    decreases list.len(),
{
    reveal(Seq::filter);
    if list.len() == 0 {
        Seq::empty()
    } else {
        let front = list.drop_last();
        let before = lemma_filter_places(front, pred);
        let n = front.len() as int;
        assert(before.contains(n) ==> false) by {
            if before.contains(n) {
                let k = choose|k: int| 0 <= k < before.len() && before[k] == n;
                assert(before[k] < n);
            }
        }
        if pred(list.last()) {
            let at = before.push(n);
            assert forall|i: int| 0 <= i < list.len() implies (#[trigger] at.contains(i) <==> pred(list[i])) by {
                if i < n {
                    assert(before.contains(i) <==> pred(front[i]));
                    if before.contains(i) {
                        let k = choose|k: int| 0 <= k < before.len() && before[k] == i;
                        assert(at[k] == i);
                    }
                    if at.contains(i) {
                        let k = choose|k: int| 0 <= k < at.len() && at[k] == i;
                        assert(before[k] == i);
                    }
                } else {
                    assert(at[n - n + before.len()] == i);
                }
            }
            at
        } else {
            assert forall|i: int| 0 <= i < list.len() implies (#[trigger] before.contains(i) <==> pred(list[i])) by {
                if i < n {
                    assert(before.contains(i) <==> pred(front[i]));
                }
            }
            before
        }
    }
}

/// A similarity answer is made of the found rows themselves, in the order in which they were found. A
/// found row is in it exactly if neither its score nor the least score fails to be a number and the
/// score is not numerically below the least one.
pub proof fn law_answer_rows(hits: Seq<Hit>, min: Score, r: Seq<Hit>) -> (at: Seq<int>)
    requires
        r == reaching(hits, min),
    ensures
        are_places(at, hits.len() as int),
        r.len() == at.len(),
        forall|k: int| 0 <= k < r.len() ==> #[trigger] r[k] == hits[at[k]],
        forall|i: int|
            0 <= i < hits.len() ==> (#[trigger] at.contains(i) <==> !hits[i].score.nan() && !min.nan()
                && !hits[i].score.below(min)),
{
    let f = |h: Hit| at_least(h.score, min);
    let at = lemma_filter_places(hits, f);
    assert forall|k: int| 0 <= k < r.len() implies #[trigger] r[k] == hits[at[k]] by {
        assert(hits.filter(f)[k] == hits[at[k]]);
    }
    at
}

proof fn lemma_distinct_places(hits: Seq<Hit>, exclude: Option<u64>) -> (at: Seq<int>)
    ensures
        are_places(at, hits.len() as int),
        at.len() == distinct(hits, exclude).len(),
        forall|k: int| 0 <= k < at.len() ==> distinct(hits, exclude)[k] == hits[#[trigger] at[k]],
        forall|i: int|
            0 <= i < hits.len() ==> (#[trigger] at.contains(i) <==> exclude != Some(hits[i].id) && (forall|j: int|
                0 <= j < i ==> (#[trigger] hits[j]).id != hits[i].id)),
    decreases hits.len(),
{
    if hits.len() == 0 {
        Seq::empty()
    } else {
        let front = hits.drop_last();
        let before = lemma_distinct_places(front, exclude);
        let kept = distinct(front, exclude);
        let n = front.len() as int;
        let h = hits.last();
        assert(exclude != Some(h.id) ==> (has_id(kept, h.id) <==> has_id(front, h.id))) by {
            if has_id(kept, h.id) {
                let k = choose|k: int| 0 <= k < kept.len() && (#[trigger] kept[k]).id == h.id;
                assert(front[before[k]].id == h.id);
            }
            if has_id(front, h.id) && exclude != Some(h.id) {
                let j = lemma_first_with_id(front, h.id);
                assert(before.contains(j));
                let k = choose|k: int| 0 <= k < before.len() && before[k] == j;
                assert(kept[k].id == h.id);
            }
        }
        let fresh = exclude != Some(h.id) && !has_id(front, h.id);
        assert(fresh <==> exclude != Some(h.id) && (forall|j: int| 0 <= j < n ==> (#[trigger] hits[j]).id != h.id)) by {
            if has_id(front, h.id) {
                let j = choose|j: int| 0 <= j < front.len() && (#[trigger] front[j]).id == h.id;
                assert(hits[j].id == h.id);
            }
            if exists|j: int| 0 <= j < n && (#[trigger] hits[j]).id == h.id {
                let j = choose|j: int| 0 <= j < n && (#[trigger] hits[j]).id == h.id;
                assert(front[j].id == h.id);
            }
        }
        let at = if fresh {
            before.push(n)
        } else {
            before
        };
        assert forall|i: int| 0 <= i < hits.len() implies (#[trigger] at.contains(i) <==> exclude != Some(hits[i].id)
            && (forall|j: int| 0 <= j < i ==> (#[trigger] hits[j]).id != hits[i].id)) by {
            if i < n {
                assert(hits[i] == front[i]);
                if before.contains(i) {
                    let k = choose|k: int| 0 <= k < before.len() && before[k] == i;
                    assert(at[k] == i);
                    assert forall|j: int| 0 <= j < i implies (#[trigger] hits[j]).id != hits[i].id by {
                        assert(front[j].id != front[i].id);
                    }
                } else {
                    if at.contains(i) {
                        let k = choose|k: int| 0 <= k < at.len() && at[k] == i;
                        assert(before[k] == i);
                    }
                    if exclude != Some(front[i].id) {
                        let j = choose|j: int| 0 <= j < i && (#[trigger] front[j]).id == front[i].id;
                        assert(hits[j].id == hits[i].id);
                    }
                }
            } else {
                if at.contains(i) && !fresh {
                    let k = choose|k: int| 0 <= k < before.len() && before[k] == i;
                    assert(before[k] < n);
                }
                if fresh {
                    assert(at[before.len() as int] == n);
                }
            }
        }
        at
    }
}

proof fn lemma_first_with_id(hits: Seq<Hit>, id: u64) -> (j: int)
    requires
        has_id(hits, id),
    ensures
        0 <= j < hits.len(),
        hits[j].id == id,
        forall|i: int| 0 <= i < j ==> (#[trigger] hits[i]).id != id,
    decreases hits.len(),
{
    let front = hits.drop_last();
    if has_id(front, id) {
        let j = lemma_first_with_id(front, id);
        assert forall|i: int| 0 <= i < j implies (#[trigger] hits[i]).id != id by {
            assert(front[i].id != id);
        }
        j
    } else {
        let k = choose|k: int| 0 <= k < hits.len() && (#[trigger] hits[k]).id == id;
        if k < front.len() {
            assert(front[k].id == id);
        }
        assert forall|i: int| 0 <= i < hits.len() - 1 implies (#[trigger] hits[i]).id != id by {
            assert(front[i].id != id);
        }
        hits.len() - 1
    }
}

/// A search returns the found rows themselves, in the order in which they were found. A found row is
/// returned exactly if its id is not the one left out, no row before it has its id, and fewer than
/// `limit` rows are returned before it.
pub proof fn law_search_results(hits: Seq<Hit>, exclude: Option<u64>, limit: nat, r: Seq<Hit>) -> (at: Seq<int>)
    requires
        r == first_of(distinct(hits, exclude), limit as int),
    ensures
        are_places(at, hits.len() as int),
        r.len() == at.len() <= limit,
        forall|k: int| 0 <= k < r.len() ==> #[trigger] r[k] == hits[at[k]],
        forall|i: int|
            #![trigger at.contains(i)]
            0 <= i < hits.len() && at.contains(i) ==> exclude != Some(hits[i].id) && (forall|j: int|
                0 <= j < i ==> (#[trigger] hits[j]).id != hits[i].id),
        forall|i: int|
            #![trigger at.contains(i)]
            0 <= i < hits.len() && !at.contains(i) && exclude != Some(hits[i].id) && (forall|j: int|
                0 <= j < i ==> (#[trigger] hits[j]).id != hits[i].id) ==> at.len() == limit && (forall|k: int|
                0 <= k < at.len() ==> #[trigger] at[k] < i),
{
    let all = lemma_distinct_places(hits, exclude);
    let kept = distinct(hits, exclude);
    let at = all.take(r.len() as int);
    assert forall|k: int| 0 <= k < r.len() implies #[trigger] r[k] == hits[at[k]] by {
        assert(kept[k] == hits[all[k]]);
    }
    assert forall|i: int| 0 <= i < hits.len() && #[trigger] at.contains(i) implies all.contains(i) by {
        let k = choose|k: int| 0 <= k < at.len() && at[k] == i;
        assert(all[k] == i);
    }
    assert forall|i: int| 0 <= i < hits.len() && !(#[trigger] at.contains(i)) && all.contains(i) implies at.len()
        == limit && (forall|k: int| 0 <= k < at.len() ==> #[trigger] at[k] < i) by {
        let m = choose|m: int| 0 <= m < all.len() && all[m] == i;
        if m < r.len() {
            assert(at[m] == i);
        }
    }
    assert forall|i: int|
        0 <= i < hits.len() && !(#[trigger] at.contains(i)) && exclude != Some(hits[i].id) && (forall|j: int|
            0 <= j < i ==> (#[trigger] hits[j]).id != hits[i].id) implies at.len() == limit && (forall|k: int|
        0 <= k < at.len() ==> #[trigger] at[k] < i) by {
        assert(all.contains(i));
    }
    at
}

/// Ascending places below `n` that hold every place are as many as there are.
pub proof fn lemma_all_places(at: Seq<int>, n: int)
    requires
        are_places(at, n),
        0 <= n,
        forall|i: int| 0 <= i < n ==> #[trigger] at.contains(i),
    ensures
        at.len() == n,
    decreases n,
{
    if n > 0 {
        assert(at.contains(n - 1));
        let k = choose|k: int| 0 <= k < at.len() && at[k] == n - 1;
        if k < at.len() - 1 {
            assert(at[k] < at[at.len() - 1]);
            assert(at[at.len() - 1] < n);
        }
        let front = at.drop_last();
        assert(are_places(front, n - 1)) by {
            assert forall|j: int| 0 <= j < front.len() implies 0 <= #[trigger] front[j] < n - 1 by {
                assert(at[j] < at[at.len() - 1]);
            }
        }
        assert forall|i: int| 0 <= i < n - 1 implies #[trigger] front.contains(i) by {
            assert(at.contains(i));
            let j = choose|j: int| 0 <= j < at.len() && at[j] == i;
            assert(front[j] == i);
        }
        lemma_all_places(front, n - 1);
    } else if at.len() > 0 {
        assert(0 <= at[0] < n);
    }
}

} // verus!
