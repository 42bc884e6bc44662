//! Similarity links between chunks, and what they connect.

use crate::score::Score;
use vstd::prelude::*;

verus! {

/// A similarity link between the chunks at `a` and `b`, where `a < b`.
pub struct Link {
    pub a: int,
    pub b: int,
    pub sim: Score,
}

/// Whether a link joins `x` and `y`.
pub open spec fn adjacent(links: Seq<Link>, x: int, y: int) -> bool {
    exists|k: int|
        0 <= k < links.len() && ((#[trigger] links[k]).a == x && links[k].b == y || links[k].a == y
            && links[k].b == x)
}

/// Whether a link joins the steps `k` and `k + 1` of `path`.
pub open spec fn step_at(links: Seq<Link>, path: Seq<int>, k: int) -> bool {
    adjacent(links, path[k], path[k + 1])
}

/// Whether `path` leads from `x` to `y` along links.
pub open spec fn leads(links: Seq<Link>, path: Seq<int>, x: int, y: int) -> bool {
    &&& path.len() > 0
    &&& path[0] == x
    &&& path.last() == y
    &&& forall|k: int| 0 <= k < path.len() - 1 ==> #[trigger] step_at(links, path, k)
}

/// Whether some chain of links leads from `x` to `y`. Every chunk is connected with itself.
pub open spec fn connected(links: Seq<Link>, x: int, y: int) -> bool {
    exists|path: Seq<int>| leads(links, path, x, y)
}

/// The similarity of a pair: the first one seen, and then each greater one.
pub open spec fn best(links: Seq<Link>, a: int, b: int) -> Option<Score>
    decreases links.len(),
{
    if links.len() == 0 {
        None
    } else {
        let seen = best(links.drop_last(), a, b);
        let l = links.last();
        if l.a == a && l.b == b {
            match seen {
                None => Some(l.sim),
                Some(s) => Some(
                    if s.below(l.sim) {
                        l.sim
                    } else {
                        s
                    },
                ),
            }
        } else {
            seen
        }
    }
}

/// Whether the links join different indices below `n`, the smaller one first.
pub open spec fn proper(links: Seq<Link>, n: int) -> bool {
    forall|k: int| 0 <= k < links.len() ==> 0 <= (#[trigger] links[k]).a < links[k].b < n
}

pub proof fn lemma_connected_self(links: Seq<Link>, x: int)
    ensures
        connected(links, x, x),
{
    assert(leads(links, seq![x], x, x));
}

pub proof fn lemma_connected_adjacent(links: Seq<Link>, x: int, y: int)
    requires
        adjacent(links, x, y),
    ensures
        connected(links, x, y),
{
    let p = seq![x, y];
    assert(step_at(links, p, 0));
    assert(leads(links, p, x, y));
}

/// Connection works both ways.
pub proof fn lemma_connected_symmetric(links: Seq<Link>, x: int, y: int)
    requires
        connected(links, x, y),
    ensures
        connected(links, y, x),
{
    let p = choose|p: Seq<int>| leads(links, p, x, y);
    let q = p.reverse();
    assert forall|k: int| 0 <= k < q.len() - 1 implies #[trigger] step_at(links, q, k) by {
        assert(step_at(links, p, p.len() - 2 - k));
        assert(q[k] == p[p.len() - 1 - k]);
        assert(q[k + 1] == p[p.len() - 2 - k]);
    }
    assert(leads(links, q, y, x));
}

/// Connections chain.
pub proof fn lemma_connected_transitive(links: Seq<Link>, x: int, y: int, z: int)
    requires
        connected(links, x, y),
        connected(links, y, z),
    ensures
        connected(links, x, z),
{
    let p = choose|p: Seq<int>| leads(links, p, x, y);
    let q = choose|q: Seq<int>| leads(links, q, y, z);
    let r = p + q.skip(1);
    assert forall|k: int| 0 <= k < r.len() - 1 implies #[trigger] step_at(links, r, k) by {
        if k < p.len() - 1 {
            assert(step_at(links, p, k));
        } else {
            let m = k - (p.len() - 1);
            assert(step_at(links, q, m));
            assert(r[k] == q[m]);
            assert(r[k + 1] == q[m + 1]);
        }
    }
    assert(r.last() == z);
    assert(leads(links, r, x, z));
}

/// Without links nothing is connected with anything else.
pub proof fn lemma_connected_none(x: int, y: int)
    ensures
        connected(Seq::<Link>::empty(), x, y) <==> x == y,
{
    let none = Seq::<Link>::empty();
    if connected(none, x, y) {
        let p = choose|p: Seq<int>| leads(none, p, x, y);
        if p.len() > 1 {
            assert(step_at(none, p, 0));
        }
    }
    if x == y {
        lemma_connected_self(none, x);
    }
}

proof fn lemma_more_links(links: Seq<Link>, l: Link, x: int, y: int)
    requires
        connected(links, x, y),
    ensures
        connected(links.push(l), x, y),
{
    let p = choose|p: Seq<int>| leads(links, p, x, y);
    let more = links.push(l);
    assert forall|k: int| 0 <= k < p.len() - 1 implies #[trigger] step_at(more, p, k) by {
        assert(step_at(links, p, k));
        let m = choose|m: int|
            0 <= m < links.len() && ((#[trigger] links[m]).a == p[k] && links[m].b == p[k + 1] || links[m].a
                == p[k + 1] && links[m].b == p[k]);
        assert(more[m] == links[m]);
    }
    assert(leads(more, p, x, y));
}

/// Whether a chain runs from `x` to `y`, at most once over a link between `a` and `b`.
spec fn bridged(links: Seq<Link>, a: int, b: int, x: int, y: int) -> bool {
    ||| connected(links, x, y)
    ||| connected(links, x, a) && connected(links, b, y)
    ||| connected(links, x, b) && connected(links, a, y)
}

proof fn lemma_path_bridged(links: Seq<Link>, l: Link, p: Seq<int>, x: int, y: int)
    requires
        leads(links.push(l), p, x, y),
    ensures
        bridged(links, l.a, l.b, x, y),
    decreases p.len(),
{
    let more = links.push(l);
    if p.len() == 1 {
        lemma_connected_self(links, x);
    } else {
        let q = p.drop_last();
        let z = q.last();
        assert forall|k: int| 0 <= k < q.len() - 1 implies #[trigger] step_at(more, q, k) by {
            assert(step_at(more, p, k));
        }
        lemma_path_bridged(links, l, q, x, z);
        assert(step_at(more, p, p.len() - 2));
        assert(adjacent(more, z, y));
        let m = choose|m: int|
            0 <= m < more.len() && ((#[trigger] more[m]).a == z && more[m].b == y || more[m].a == y
                && more[m].b == z);
        if m < links.len() {
            assert(links[m] == more[m]);
            lemma_connected_adjacent(links, z, y);
            if connected(links, x, z) {
                lemma_connected_transitive(links, x, z, y);
            } else if connected(links, x, l.a) && connected(links, l.b, z) {
                lemma_connected_transitive(links, l.b, z, y);
            } else {
                lemma_connected_transitive(links, l.a, z, y);
            }
        } else {
            lemma_connected_self(links, y);
        }
    }
}

/// One more link connects exactly what was connected and what it bridges.
pub proof fn lemma_connected_push(links: Seq<Link>, l: Link, x: int, y: int)
    ensures
        connected(links.push(l), x, y) <==> (connected(links, x, y) || (connected(links, x, l.a) && connected(
            links,
            l.b,
            y,
        )) || (connected(links, x, l.b) && connected(links, l.a, y))),
{
    let more = links.push(l);
    if connected(more, x, y) {
        let p = choose|p: Seq<int>| leads(more, p, x, y);
        lemma_path_bridged(links, l, p, x, y);
    }
    assert(more[links.len() as int] == l);
    assert(adjacent(more, l.a, l.b));
    assert(adjacent(more, l.b, l.a));
    lemma_connected_adjacent(more, l.a, l.b);
    lemma_connected_adjacent(more, l.b, l.a);
    if connected(links, x, y) {
        lemma_more_links(links, l, x, y);
    }
    if connected(links, x, l.a) && connected(links, l.b, y) {
        lemma_more_links(links, l, x, l.a);
        lemma_more_links(links, l, l.b, y);
        lemma_connected_transitive(more, x, l.a, l.b);
        lemma_connected_transitive(more, x, l.b, y);
    }
    if connected(links, x, l.b) && connected(links, l.a, y) {
        lemma_more_links(links, l, x, l.b);
        lemma_more_links(links, l, l.a, y);
        lemma_connected_transitive(more, x, l.b, l.a);
        lemma_connected_transitive(more, x, l.a, y);
    }
}

/// A pair has a similarity exactly if a link joins it.
pub proof fn lemma_best_adjacent(links: Seq<Link>, n: int, a: int, b: int)
    requires
        proper(links, n),
        a < b,
    ensures
        best(links, a, b) is Some <==> adjacent(links, a, b),
    decreases links.len(),
{
    if links.len() > 0 {
        let rest = links.drop_last();
        assert forall|k: int| 0 <= k < rest.len() implies 0 <= (#[trigger] rest[k]).a < rest[k].b < n by {
            assert(links[k] == rest[k]);
        }
        lemma_best_adjacent(rest, n, a, b);
        if adjacent(links, a, b) {
            let k = choose|k: int|
                0 <= k < links.len() && ((#[trigger] links[k]).a == a && links[k].b == b || links[k].a == b
                    && links[k].b == a);
            if k < rest.len() {
                assert(rest[k] == links[k]);
                assert(adjacent(rest, a, b));
            }
        }
        if adjacent(rest, a, b) {
            let k = choose|k: int|
                0 <= k < rest.len() && ((#[trigger] rest[k]).a == a && rest[k].b == b || rest[k].a == b
                    && rest[k].b == a);
            assert(links[k] == rest[k]);
            assert(adjacent(links, a, b));
        }
        if links.last().a == a && links.last().b == b {
            assert(adjacent(links, a, b));
        }
    }
}

} // verus!
