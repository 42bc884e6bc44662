//! What the clusters of a scan depend on.

use crate::domain::{DupCluster, Hit};
use crate::links;
use crate::links::Link;
use crate::ranking;
use crate::score::Score;
use crate::search;
use crate::service::query;
use vstd::prelude::*;

verus! {

/// Whether two clusters have the same members and the same bounds. Both zeros count as one number.
pub open spec fn same_cluster(a: DupCluster, b: DupCluster) -> bool {
    &&& a.size == b.size
    &&& a.members@ == b.members@
    &&& a.min_sim.rank() == b.min_sim.rank()
    &&& a.max_sim.rank() == b.max_sim.rank()
}

/// Whether a cluster is among others.
pub open spec fn among(c: DupCluster, r: Seq<DupCluster>) -> bool {
    exists|k: int| 0 <= k < r.len() && same_cluster(c, #[trigger] r[k])
}

/// Whether two results hold the same clusters, in whatever order.
pub open spec fn same_clusters(a: Seq<DupCluster>, b: Seq<DupCluster>) -> bool {
    &&& forall|k: int| 0 <= k < a.len() ==> among(#[trigger] a[k], b)
    &&& forall|k: int| 0 <= k < b.len() ==> among(#[trigger] b[k], a)
}

/// Whether no link scores a negative zero, which equals the other zero but is told apart from it in
/// the order of clusters.
pub open spec fn one_zero(ls: Seq<Link>) -> bool {
    forall|k: int| 0 <= k < ls.len() ==> (#[trigger] ls[k]).sim.bits != 0x8000_0000
}

/// Whether two groups are the same chunks, place by place, with the same similarities.
spec fn alike(
    h1: Seq<Hit>,
    l1: Seq<Link>,
    g1: Seq<usize>,
    h2: Seq<Hit>,
    l2: Seq<Link>,
    g2: Seq<usize>,
) -> bool {
    &&& g1.len() == g2.len()
    &&& forall|p: int| 0 <= p < g1.len() ==> h1[#[trigger] g1[p] as int] == h2[g2[p] as int]
    &&& same_similarities(l1, g1, l2, g2)
}

spec fn same_similarities(l1: Seq<Link>, g1: Seq<usize>, l2: Seq<Link>, g2: Seq<usize>) -> bool {
    forall|s: Score|
        #[trigger] search::similarity_within(l1, g1, s) <==> #[trigger] search::similarity_within(l2, g2, s)
}

proof fn lemma_least_unique(l1: Seq<Link>, g1: Seq<usize>, a: Score, l2: Seq<Link>, g2: Seq<usize>, b: Score)
    requires
        same_similarities(l1, g1, l2, g2),
        search::is_least(l1, g1, a),
        search::is_least(l2, g2, b),
    ensures
        a.rank() == b.rank(),
        (forall|s: Score| #[trigger] search::similarity_within(l1, g1, s) ==> s.bits != 0x8000_0000) ==> a == b,
{
    let m = choose|m: Score|
        {
            &&& #[trigger] search::bounds_below(l1, g1, m)
            &&& m.bits == crate::score::LARGEST || search::similarity_within(l1, g1, m)
            &&& a == if m.bits == crate::score::LARGEST {
                Score { bits: 0 }
            } else {
                m
            }
        };
    let q = choose|q: Score|
        {
            &&& #[trigger] search::bounds_below(l2, g2, q)
            &&& q.bits == crate::score::LARGEST || search::similarity_within(l2, g2, q)
            &&& b == if q.bits == crate::score::LARGEST {
                Score { bits: 0 }
            } else {
                q
            }
        };
    assert(search::similarity_within(l1, g1, m) ==> search::similarity_within(l2, g2, m));
    assert(search::similarity_within(l2, g2, q) ==> search::similarity_within(l1, g1, q));
    assert(m.rank() == q.rank());
}

proof fn lemma_greatest_unique(l1: Seq<Link>, g1: Seq<usize>, a: Score, l2: Seq<Link>, g2: Seq<usize>, b: Score)
    requires
        same_similarities(l1, g1, l2, g2),
        search::is_greatest(l1, g1, a),
        search::is_greatest(l2, g2, b),
    ensures
        a.rank() == b.rank(),
        (forall|s: Score| #[trigger] search::similarity_within(l1, g1, s) ==> s.bits != 0x8000_0000) ==> a == b,
{
    let m = choose|m: Score|
        {
            &&& #[trigger] search::bounds_above(l1, g1, m)
            &&& m.bits == crate::score::SMALLEST || search::similarity_within(l1, g1, m)
            &&& a == if m.bits == crate::score::SMALLEST {
                Score { bits: 0 }
            } else {
                m
            }
        };
    let q = choose|q: Score|
        {
            &&& #[trigger] search::bounds_above(l2, g2, q)
            &&& q.bits == crate::score::SMALLEST || search::similarity_within(l2, g2, q)
            &&& b == if q.bits == crate::score::SMALLEST {
                Score { bits: 0 }
            } else {
                q
            }
        };
    assert(search::similarity_within(l1, g1, m) ==> search::similarity_within(l2, g2, m));
    assert(search::similarity_within(l2, g2, q) ==> search::similarity_within(l1, g1, q));
    assert(m.rank() == q.rank());
}

proof fn lemma_alike_same(
    h1: Seq<Hit>,
    l1: Seq<Link>,
    g1: Seq<usize>,
    c1: DupCluster,
    h2: Seq<Hit>,
    l2: Seq<Link>,
    g2: Seq<usize>,
    c2: DupCluster,
)
    requires
        alike(h1, l1, g1, h2, l2, g2),
        search::is_cluster_of(h1, l1, g1, c1),
        search::is_cluster_of(h2, l2, g2, c2),
    ensures
        same_cluster(c1, c2),
{
    lemma_least_unique(l1, g1, c1.min_sim, l2, g2, c2.min_sim);
    lemma_greatest_unique(l1, g1, c1.max_sim, l2, g2, c2.max_sim);
    let n = g1.len() as int;
    let before = search::member_before(h2, g2);
    let a = choose|order: Seq<usize>|
        #[trigger] ranking::is_ranking(order, g1.len() as int, search::member_before(h1, g1)) && c1.members@
            == Seq::new(g1.len(), |k: int| search::row_of(h1[g1[order[k] as int] as int]));
    let b = choose|order: Seq<usize>|
        #[trigger] ranking::is_ranking(order, g2.len() as int, search::member_before(h2, g2)) && c2.members@
            == Seq::new(g2.len(), |k: int| search::row_of(h2[g2[order[k] as int] as int]));
    assert forall|p: int, q: int| 0 <= p < q < n implies before(#[trigger] a[p] as int, #[trigger] a[q] as int) by {
        assert(search::member_before(h1, g1)(a[p] as int, a[q] as int));
        assert(h1[g1[a[p] as int] as int] == h2[g2[a[p] as int] as int]);
        assert(h1[g1[a[q] as int] as int] == h2[g2[a[q] as int] as int]);
    }
    search::lemma_member_order(h2, g2);
    ranking::law_ranking_unique(a, b, n, before);
    assert forall|k: int| 0 <= k < n implies c1.members@[k] == c2.members@[k] by {
        assert(h1[g1[a[k] as int] as int] == h2[g2[a[k] as int] as int]);
    }
    assert(c1.members@ =~= c2.members@);
}

pub(crate) open spec fn ascending(g: Seq<usize>) -> bool {
    forall|k: int, m: int| 0 <= k < m < g.len() ==> #[trigger] g[k] < #[trigger] g[m]
}

pub(crate) proof fn lemma_ascending_places(g: Seq<usize>, k: int)
    requires
        ascending(g),
        0 <= k < g.len(),
    ensures
        k <= g[k],
    decreases k,
{
    if k > 0 {
        lemma_ascending_places(g, k - 1);
        assert(g[k - 1] < g[k]);
    }
}

proof fn lemma_ascending_unique(a: Seq<usize>, b: Seq<usize>)
    requires
        ascending(a),
        ascending(b),
        forall|x: usize| #[trigger] a.contains(x) <==> b.contains(x),
    ensures
        a == b,
    decreases a.len(),
{
    if a.len() == 0 {
        if b.len() > 0 {
            assert(b.contains(b[0]));
            assert(a.contains(b[0]));
        }
        assert(a =~= b);
    } else {
        assert(a.contains(a[0]));
        assert(b.contains(a[0]));
        assert(a.contains(a.last()));
        assert(b.contains(b.last()));
        assert(b.contains(a.last()));
        assert(a.contains(b.last()));
        let p = choose|p: int| 0 <= p < b.len() && b[p] == a.last();
        let q = choose|q: int| 0 <= q < a.len() && a[q] == b.last();
        assert(a.last() == b.last());
        let x = a.drop_last();
        let y = b.drop_last();
        assert forall|v: usize| #[trigger] x.contains(v) <==> y.contains(v) by {
            if x.contains(v) {
                let k = choose|k: int| 0 <= k < x.len() && x[k] == v;
                assert(a[k] == v && a[k] < a[a.len() - 1]);
                assert(a.contains(v));
                assert(b.contains(v));
                let m = choose|m: int| 0 <= m < b.len() && b[m] == v;
                assert(y[m] == v);
            }
            if y.contains(v) {
                let k = choose|k: int| 0 <= k < y.len() && y[k] == v;
                assert(b[k] == v && b[k] < b[b.len() - 1]);
                assert(b.contains(v));
                assert(a.contains(v));
                let m = choose|m: int| 0 <= m < a.len() && a[m] == v;
                assert(x[m] == v);
            }
        }
        lemma_ascending_unique(x, y);
        assert(a =~= x.push(a.last()));
        assert(b =~= y.push(b.last()));
    }
}

/// A chunk stands in one group only.
pub(crate) proof fn lemma_one_group(ls: Seq<Link>, n: int, groups: Seq<Seq<usize>>, g: int, h: int, x: usize)
    requires
        search::are_components(ls, n, groups),
        0 <= g < groups.len(),
        0 <= h < groups.len(),
        groups[g].contains(x),
        groups[h].contains(x),
    ensures
        g == h,
{
    let first = groups[g][0];
    let other = groups[h][0];
    assert(groups[g].contains(first));
    assert(groups[h].contains(other));
    search::law_one_component_each(ls, n, groups, g, first, x);
    search::law_one_component_each(ls, n, groups, h, x, other);
    links::lemma_connected_transitive(ls, first as int, x as int, other as int);
    links::lemma_connected_symmetric(ls, first as int, other as int);
    if g < h {
        assert(!links::connected(ls, groups[g][0] as int, groups[h][0] as int));
    } else if h < g {
        assert(!links::connected(ls, groups[h][0] as int, groups[g][0] as int));
    }
}

/// The first member of a group, as a member of another division into components: it stands in no
/// group before `g` where the divisions agree below `g`.
proof fn lemma_first_not_before(ls: Seq<Link>, n: int, a: Seq<Seq<usize>>, b: Seq<Seq<usize>>, g: int)
    requires
        search::are_components(ls, n, a),
        search::are_components(ls, n, b),
        0 <= g < a.len(),
        forall|h: int| 0 <= h < g && h < b.len() ==> #[trigger] a[h] == b[h],
    ensures
        g < b.len(),
        b[g][0] <= a[g][0],
{
    let x = a[g][0];
    assert(a[g].contains(x));
    assert(search::placed(b, x as int));
    let (h, k) = choose|h: int, k: int|
        0 <= h < b.len() && 0 <= k < b[h].len() && #[trigger] b[h][k] == x as int;
    assert(b[h][k] == x);
    assert(b[h].contains(x));
    if h < g {
        assert(a[h] == b[h]);
        lemma_one_group(ls, n, a, g, h, x);
    }
    if k > 0 {
        assert(b[h][0] < b[h][k]);
    }
    if g < h {
        assert(b[g][0] < b[h][0]);
    }
}

proof fn lemma_same_group(ls: Seq<Link>, n: int, a: Seq<Seq<usize>>, b: Seq<Seq<usize>>, g: int)
    requires
        search::are_components(ls, n, a),
        search::are_components(ls, n, b),
        0 <= g < a.len(),
    ensures
        g < b.len(),
        a[g] == b[g],
    decreases g,
{
    assert forall|h: int| 0 <= h < g implies h < b.len() && #[trigger] a[h] == b[h] by {
        lemma_same_group(ls, n, a, b, h);
    }
    lemma_first_not_before(ls, n, a, b, g);
    lemma_first_not_before(ls, n, b, a, g);
    let first = a[g][0];
    assert(a[g].contains(first));
    assert(b[g].contains(b[g][0]));
    assert forall|x: usize| #[trigger] a[g].contains(x) <==> b[g].contains(x) by {
        if a[g].contains(x) {
            let k = choose|k: int| 0 <= k < a[g].len() && a[g][k] == x;
            assert(a[g][k] < n);
        }
        if b[g].contains(x) {
            let k = choose|k: int| 0 <= k < b[g].len() && b[g][k] == x;
            assert(b[g][k] < n);
        }
        if x < n {
            search::law_one_component_each(ls, n, a, g, first, x);
            search::law_one_component_each(ls, n, b, g, first, x);
        }
    }
    lemma_ascending_unique(a[g], b[g]);
}

/// Links divide the chunks into components in one way only.
pub proof fn law_components_unique(ls: Seq<Link>, n: int, a: Seq<Seq<usize>>, b: Seq<Seq<usize>>)
    requires
        search::are_components(ls, n, a),
        search::are_components(ls, n, b),
    ensures
        a == b,
{
    if a.len() > 0 {
        lemma_same_group(ls, n, a, b, a.len() - 1);
    }
    if b.len() > 0 {
        lemma_same_group(ls, n, b, a, b.len() - 1);
    }
    assert forall|g: int| 0 <= g < a.len() implies a[g] == b[g] by {
        lemma_same_group(ls, n, a, b, g);
    }
    assert(a =~= b);
}

/// There are no more groups than chunks.
pub(crate) proof fn lemma_groups_bounded(ls: Seq<Link>, n: int, groups: Seq<Seq<usize>>, g: int)
    requires
        search::are_components(ls, n, groups),
        0 <= g < groups.len(),
    ensures
        g <= groups[g][0] < n,
    decreases g,
{
    if g > 0 {
        lemma_groups_bounded(ls, n, groups, g - 1);
        assert(groups[g - 1][0] < groups[g][0]);
    }
    assert(groups[g][0] < n);
}

/// Whether a group has its like among others.
spec fn has_alike(
    h1: Seq<Hit>,
    l1: Seq<Link>,
    g1: Seq<usize>,
    h2: Seq<Hit>,
    l2: Seq<Link>,
    groups: Seq<Seq<usize>>,
) -> bool {
    exists|h: int| 0 <= h < groups.len() && alike(h1, l1, g1, h2, l2, #[trigger] groups[h])
}

/// Where each large group has its like in the other division, each cluster is among the other
/// clusters, as none of those is cut off.
proof fn lemma_matched(
    h1: Seq<Hit>,
    l1: Seq<Link>,
    groups: Seq<Seq<usize>>,
    max1: int,
    r1: Seq<DupCluster>,
    h2: Seq<Hit>,
    l2: Seq<Link>,
    others: Seq<Seq<usize>>,
    max2: int,
    r2: Seq<DupCluster>,
    highs1: Seq<Score>,
    order1: Seq<usize>,
    highs2: Seq<Score>,
    order2: Seq<usize>,
    min_size: int,
)
    requires
        search::are_components(l2, h2.len() as int, others),
        search::are_listed(h1, l1, search::large(groups, min_size), highs1, order1, max1, r1),
        search::are_listed(h2, l2, search::large(others, min_size), highs2, order2, max2, r2),
        max2 >= h2.len(),
        h2.len() <= usize::MAX,
        forall|g: int|
            0 <= g < groups.len() && (#[trigger] groups[g]).len() >= min_size ==> has_alike(
                h1,
                l1,
                groups[g],
                h2,
                l2,
                others,
            ),
    ensures
        forall|k: int| 0 <= k < r1.len() ==> among(#[trigger] r1[k], r2),
        r2.len() == search::large(others, min_size).len(),
{
    let big1 = search::large(groups, min_size);
    let big2 = search::large(others, min_size);
    let pred = |g: Seq<usize>| g.len() >= min_size;
    others.lemma_filter_len(pred);
    if others.len() > 0 {
        lemma_groups_bounded(l2, h2.len() as int, others, others.len() - 1);
    }
    assert(big2.len() <= h2.len());
    let before = search::cluster_before(big2, highs2);
    assert(ranking::strict_order(big2.len() as int, before));
    assert forall|k: int| 0 <= k < r1.len() implies among(#[trigger] r1[k], r2) by {
        let p = order1[k] as int;
        assert(search::is_cluster_of(h1, l1, big1[p], r1[k]));
        groups.lemma_filter_pred(pred, p);
        assert(groups.filter(pred).contains(big1[p]));
        groups.lemma_filter_contains_rev(pred, big1[p]);
        let g = choose|g: int| 0 <= g < groups.len() && groups[g] == big1[p];
        assert(has_alike(h1, l1, groups[g], h2, l2, others));
        let h = choose|h: int| 0 <= h < others.len() && alike(h1, l1, groups[g], h2, l2, #[trigger] others[h]);
        others.lemma_filter_contains(pred, h);
        let q = choose|q: int| 0 <= q < big2.len() && big2[q] == others[h];
        ranking::lemma_ranking_holds_all(order2, big2.len() as int, before, q as usize);
        let m = choose|m: int| 0 <= m < order2.len() && order2[m] == q as usize;
        assert(search::is_cluster_of(h2, l2, big2[order2[m] as int], r2[m]));
        lemma_alike_same(h1, l1, groups[g], r1[k], h2, l2, others[h], r2[m]);
    }
}

/// The links decide the clusters: two results over the same links, neither of them cut off, are the
/// same clusters.
pub proof fn law_links_decide_clusters(
    hits: Seq<Hit>,
    ls: Seq<Link>,
    min_size: int,
    max_clusters: int,
    a: Seq<DupCluster>,
    b: Seq<DupCluster>,
)
    requires
        hits.len() <= max_clusters <= usize::MAX,
        search::are_clusters(hits, ls, min_size, max_clusters, a),
        search::are_clusters(hits, ls, min_size, max_clusters, b),
    ensures
        a.len() == b.len(),
        same_clusters(a, b),
{
    let n = hits.len() as int;
    let (ga, ha, oa) = choose|groups: Seq<Seq<usize>>, highs: Seq<Score>, order: Seq<usize>|
        #[trigger] search::are_components(ls, n, groups) && #[trigger] search::are_listed(
            hits,
            ls,
            search::large(groups, min_size),
            highs,
            order,
            max_clusters,
            a,
        );
    let (gb, hb, ob) = choose|groups: Seq<Seq<usize>>, highs: Seq<Score>, order: Seq<usize>|
        #[trigger] search::are_components(ls, n, groups) && #[trigger] search::are_listed(
            hits,
            ls,
            search::large(groups, min_size),
            highs,
            order,
            max_clusters,
            b,
        );
    law_components_unique(ls, n, ga, gb);
    assert forall|g: int| 0 <= g < ga.len() && (#[trigger] ga[g]).len() >= min_size implies has_alike(
        hits,
        ls,
        ga[g],
        hits,
        ls,
        ga,
    ) by {
        assert(alike(hits, ls, ga[g], hits, ls, ga[g]));
    }
    lemma_matched(hits, ls, ga, max_clusters, a, hits, ls, gb, max_clusters, b, ha, oa, hb, ob, min_size);
    lemma_matched(hits, ls, gb, max_clusters, b, hits, ls, ga, max_clusters, a, hb, ob, ha, oa, min_size);
}

proof fn lemma_best_is_linked(ls: Seq<Link>, a: int, b: int)
    ensures
        links::best(ls, a, b) matches Some(s) ==> exists|k: int| 0 <= k < ls.len() && (#[trigger] ls[k]).sim == s,
    decreases ls.len(),
{
    if ls.len() > 0 {
        let front = ls.drop_last();
        lemma_best_is_linked(front, a, b);
        assert(ls[ls.len() - 1] == ls.last());
        if let Some(s) = links::best(front, a, b) {
            let k = choose|k: int| 0 <= k < front.len() && (#[trigger] front[k]).sim == s;
            assert(ls[k].sim == s);
        }
    }
}

/// Where no link scores a negative zero, the links decide the result down to its order and its bits,
/// cut off or not.
pub proof fn law_links_decide_result(
    hits: Seq<Hit>,
    ls: Seq<Link>,
    min_size: int,
    max_clusters: int,
    a: Seq<DupCluster>,
    b: Seq<DupCluster>,
)
    requires
        one_zero(ls),
        search::are_clusters(hits, ls, min_size, max_clusters, a),
        search::are_clusters(hits, ls, min_size, max_clusters, b),
    ensures
        a.len() == b.len(),
        forall|k: int|
            0 <= k < a.len() ==> {
                &&& (#[trigger] a[k]).size == b[k].size
                &&& a[k].members@ == b[k].members@
                &&& a[k].min_sim == b[k].min_sim
                &&& a[k].max_sim == b[k].max_sim
            },
{
    let n = hits.len() as int;
    let (ga, ha, oa) = choose|groups: Seq<Seq<usize>>, highs: Seq<Score>, order: Seq<usize>|
        #[trigger] search::are_components(ls, n, groups) && #[trigger] search::are_listed(
            hits,
            ls,
            search::large(groups, min_size),
            highs,
            order,
            max_clusters,
            a,
        );
    let (gb, hb, ob) = choose|groups: Seq<Seq<usize>>, highs: Seq<Score>, order: Seq<usize>|
        #[trigger] search::are_components(ls, n, groups) && #[trigger] search::are_listed(
            hits,
            ls,
            search::large(groups, min_size),
            highs,
            order,
            max_clusters,
            b,
        );
    law_components_unique(ls, n, ga, gb);
    let big = search::large(ga, min_size);
    assert forall|g: Seq<usize>, s: Score| #[trigger] search::similarity_within(ls, g, s) implies s.bits
        != 0x8000_0000 by {
        let (x, y) = choose|x: usize, y: usize|
            g.contains(x) && g.contains(y) && x < y && #[trigger] links::best(ls, x as int, y as int) == Some(s);
        lemma_best_is_linked(ls, x as int, y as int);
    }
    assert forall|g: int| 0 <= g < big.len() implies ha[g] == hb[g] by {
        assert(search::is_greatest(ls, big[g], ha[g]));
        assert(search::is_greatest(ls, big[g], hb[g]));
        lemma_greatest_unique(ls, big[g], ha[g], ls, big[g], hb[g]);
    }
    assert(ha =~= hb);
    let before = search::cluster_before(big, ha);
    assert(ranking::strict_order(big.len() as int, before));
    ranking::law_ranking_unique(oa, ob, big.len() as int, before);
    assert forall|k: int| 0 <= k < a.len() implies {
        &&& (#[trigger] a[k]).size == b[k].size
        &&& a[k].members@ == b[k].members@
        &&& a[k].min_sim == b[k].min_sim
        &&& a[k].max_sim == b[k].max_sim
    } by {
        let g = big[oa[k] as int];
        assert(search::is_cluster_of(hits, ls, g, a[k]));
        assert(search::is_cluster_of(hits, ls, g, b[k]));
        assert(alike(hits, ls, g, hits, ls, g));
        lemma_alike_same(hits, ls, g, a[k], hits, ls, g, b[k]);
        lemma_least_unique(ls, g, a[k].min_sim, ls, g, b[k].min_sim);
    }
}

/// Cutting a result off keeps its first clusters: where no link scores a negative zero, the result for
/// fewer clusters is the beginning of the result for more.
pub proof fn law_cut_off_keeps_the_first(
    hits: Seq<Hit>,
    ls: Seq<Link>,
    min_size: int,
    fewer: int,
    more: int,
    a: Seq<DupCluster>,
    b: Seq<DupCluster>,
)
    requires
        one_zero(ls),
        0 <= fewer <= more,
        search::are_clusters(hits, ls, min_size, fewer, a),
        search::are_clusters(hits, ls, min_size, more, b),
    ensures
        a.len() == if fewer < b.len() {
            fewer
        } else {
            b.len() as int
        },
        forall|k: int|
            0 <= k < a.len() ==> {
                &&& (#[trigger] a[k]).size == b[k].size
                &&& a[k].members@ == b[k].members@
                &&& a[k].min_sim == b[k].min_sim
                &&& a[k].max_sim == b[k].max_sim
            },
{
    let n = hits.len() as int;
    let (ga, ha, oa) = choose|groups: Seq<Seq<usize>>, highs: Seq<Score>, order: Seq<usize>|
        #[trigger] search::are_components(ls, n, groups) && #[trigger] search::are_listed(
            hits,
            ls,
            search::large(groups, min_size),
            highs,
            order,
            fewer,
            a,
        );
    let (gb, hb, ob) = choose|groups: Seq<Seq<usize>>, highs: Seq<Score>, order: Seq<usize>|
        #[trigger] search::are_components(ls, n, groups) && #[trigger] search::are_listed(
            hits,
            ls,
            search::large(groups, min_size),
            highs,
            order,
            more,
            b,
        );
    law_components_unique(ls, n, ga, gb);
    let big = search::large(ga, min_size);
    assert forall|g: Seq<usize>, s: Score| #[trigger] search::similarity_within(ls, g, s) implies s.bits
        != 0x8000_0000 by {
        let (x, y) = choose|x: usize, y: usize|
            g.contains(x) && g.contains(y) && x < y && #[trigger] links::best(ls, x as int, y as int) == Some(s);
        lemma_best_is_linked(ls, x as int, y as int);
    }
    assert forall|g: int| 0 <= g < big.len() implies ha[g] == hb[g] by {
        assert(search::is_greatest(ls, big[g], ha[g]));
        assert(search::is_greatest(ls, big[g], hb[g]));
        lemma_greatest_unique(ls, big[g], ha[g], ls, big[g], hb[g]);
    }
    assert(ha =~= hb);
    let before = search::cluster_before(big, ha);
    assert(ranking::strict_order(big.len() as int, before));
    ranking::law_ranking_unique(oa, ob, big.len() as int, before);
    assert forall|k: int| 0 <= k < a.len() implies {
        &&& (#[trigger] a[k]).size == b[k].size
        &&& a[k].members@ == b[k].members@
        &&& a[k].min_sim == b[k].min_sim
        &&& a[k].max_sim == b[k].max_sim
    } by {
        let g = big[oa[k] as int];
        assert(search::is_cluster_of(hits, ls, g, a[k]));
        assert(search::is_cluster_of(hits, ls, g, b[k]));
        assert(alike(hits, ls, g, hits, ls, g));
        lemma_alike_same(hits, ls, g, a[k], hits, ls, g, b[k]);
        lemma_least_unique(ls, g, a[k].min_sim, ls, g, b[k].min_sim);
    }
}

/// Only the neighbour lists of chunks that may seed decide the clusters: whatever lists the other
/// chunks have, empty ones too, the clusters are the same. Other chunks come in as neighbours of a
/// seed alone.
pub proof fn law_seeds_decide_clusters(
    hits: Seq<Hit>,
    x: Seq<Vec<Hit>>,
    y: Seq<Vec<Hit>>,
    min_score: Score,
    seeds: Option<&Vec<String>>,
    min_size: int,
    max_clusters: int,
    a: Seq<DupCluster>,
    b: Seq<DupCluster>,
)
    requires
        x.len() == y.len() <= hits.len(),
        forall|k: int| 0 <= k < x.len() && search::seeded(seeds, hits[k].path@) ==> #[trigger] x[k] == y[k],
        hits.len() <= max_clusters <= usize::MAX,
        search::are_clusters(hits, search::links_among(hits, x, min_score, seeds), min_size, max_clusters, a),
        search::are_clusters(hits, search::links_among(hits, y, min_score, seeds), min_size, max_clusters, b),
    ensures
        a.len() == b.len(),
        same_clusters(a, b),
{
    query::law_unasked_neighbours_do_not_matter(hits, x, y, min_score, seeds);
    law_links_decide_clusters(
        hits,
        search::links_among(hits, x, min_score, seeds),
        min_size,
        max_clusters,
        a,
        b,
    );
}

/// Every reported cluster of two or more has a member of a path that may seed.
pub proof fn law_reported_clusters_hold_a_seed(
    hits: Seq<Hit>,
    neighbours: Seq<Vec<Hit>>,
    min_score: Score,
    seeds: Option<&Vec<String>>,
    min_size: int,
    max_clusters: int,
    r: Seq<DupCluster>,
    k: int,
)
    requires
        neighbours.len() <= hits.len() <= usize::MAX,
        min_size >= 2,
        search::are_clusters(
            hits,
            search::links_among(hits, neighbours, min_score, seeds),
            min_size,
            max_clusters,
            r,
        ),
        0 <= k < r.len(),
    ensures
        exists|m: int| 0 <= m < r[k].members@.len() && search::seeded(seeds, (#[trigger] r[k].members@[m]).path@),
{
    let ls = search::links_among(hits, neighbours, min_score, seeds);
    let n = hits.len() as int;
    let (groups, highs, order) = choose|groups: Seq<Seq<usize>>, highs: Seq<Score>, order: Seq<usize>|
        #[trigger] search::are_components(ls, n, groups) && #[trigger] search::are_listed(
            hits,
            ls,
            search::large(groups, min_size),
            highs,
            order,
            max_clusters,
            r,
        );
    let big = search::large(groups, min_size);
    let pred = |g: Seq<usize>| g.len() >= min_size;
    let p = order[k] as int;
    groups.lemma_filter_pred(pred, p);
    assert(groups.filter(pred).contains(big[p]));
    groups.lemma_filter_contains_rev(pred, big[p]);
    let g = choose|g: int| 0 <= g < groups.len() && groups[g] == big[p];
    let group = groups[g];
    let x = group[0];
    let y = group[1];
    assert(groups[g][0] < groups[g][1]);
    assert(groups[g][1] < n);
    assert(links::connected(ls, groups[g][0] as int, groups[g][1] as int));
    search::law_clusters_hold_a_seed(hits, neighbours, min_score, seeds, x as int, y as int);
    let z = choose|z: int| #[trigger] search::seeds_at(hits, z, seeds) && links::connected(ls, x as int, z);
    if z != x as int {
        links::lemma_connected_symmetric(ls, x as int, z);
        let w = search::lemma_first_step(hits, neighbours, min_score, seeds, z, x as int);
    }
    assert(0 <= z < n);
    assert(group.contains(x));
    search::law_one_component_each(ls, n, groups, g, x, z as usize);
    let q = choose|q: int| 0 <= q < group.len() && group[q] == z as usize;
    lemma_ascending_places(group, q);
    let before = search::member_before(hits, group);
    assert(search::is_cluster_of(hits, ls, big[order[k] as int], r[k]));
    let rows = choose|o: Seq<usize>|
        #[trigger] ranking::is_ranking(o, group.len() as int, before) && r[k].members@ == Seq::new(
            group.len(),
            |m: int| search::row_of(hits[group[o[m] as int] as int]),
        );
    search::lemma_member_order(hits, group);
    ranking::lemma_ranking_holds_all(rows, group.len() as int, before, q as usize);
    let m = choose|m: int| 0 <= m < rows.len() && rows[m] == q as usize;
    assert(r[k].members@[m] == search::row_of(hits[z]));
}

/// Whether no two chunks share an id.
pub open spec fn distinct_ids(hits: Seq<Hit>) -> bool {
    forall|i: int, j: int| 0 <= i < j < hits.len() ==> (#[trigger] hits[i]).id != (#[trigger] hits[j]).id
}

/// Where the chunk at `x` stands after the one at `k` was taken out.
spec fn moved(k: int, x: int) -> int {
    if x < k {
        x
    } else {
        x - 1
    }
}

/// Where the chunk at `x` stood before the one at `k` was taken out.
spec fn unmoved(k: int, x: int) -> int {
    if x < k {
        x
    } else {
        x + 1
    }
}

spec fn moved_link(k: int, l: Link) -> Link {
    Link { a: moved(k, l.a), b: moved(k, l.b), sim: l.sim }
}

spec fn moved_links(k: int, ls: Seq<Link>) -> Seq<Link> {
    Seq::new(ls.len(), |i: int| moved_link(k, ls[i]))
}

/// Whether no link touches the chunk at `k`.
spec fn untouched(ls: Seq<Link>, k: int) -> bool {
    forall|i: int| 0 <= i < ls.len() ==> (#[trigger] ls[i]).a != k && ls[i].b != k
}

pub(crate) proof fn lemma_located(hits: Seq<Hit>, j: int)
    requires
        distinct_ids(hits),
        0 <= j < hits.len(),
    ensures
        search::locate(hits, hits[j].id) == Some(j),
    decreases hits.len(),
{
    let last = hits.len() - 1;
    if j < last {
        assert(hits[j].id != hits[last].id);
        lemma_located(hits.drop_last(), j);
    }
}

proof fn lemma_located_after(hits: Seq<Hit>, k: int, id: u64)
    requires
        distinct_ids(hits),
        0 <= k < hits.len(),
    ensures
        search::locate(hits.remove(k), id) == match search::locate(hits, id) {
            Some(j) => if j == k {
                None
            } else {
                Some(moved(k, j))
            },
            None => None,
        },
{
    let rest = hits.remove(k);
    assert forall|i: int| 0 <= i < rest.len() implies #[trigger] rest[i] == hits[unmoved(k, i)] by {}
    assert(distinct_ids(rest));
    search::lemma_locate_in_range(hits, id);
    search::lemma_locate_in_range(rest, id);
    if let Some(m) = search::locate(rest, id) {
        lemma_located(hits, unmoved(k, m));
    }
    if let Some(j) = search::locate(hits, id) {
        if j != k {
            assert(rest[moved(k, j)] == hits[j]);
            lemma_located(rest, moved(k, j));
        }
    }
}

proof fn lemma_links_from_after(hits: Seq<Hit>, k: int, i: int, nbrs: Seq<Hit>, min_score: Score)
    requires
        distinct_ids(hits),
        0 <= k < hits.len(),
        hits[k].no_duplicate,
        0 <= i < hits.len(),
        i != k,
    ensures
        search::links_from(hits.remove(k), moved(k, i), nbrs, min_score) == moved_links(
            k,
            search::links_from(hits, i, nbrs, min_score),
        ),
    decreases nbrs.len(),
{
    let rest = hits.remove(k);
    if nbrs.len() > 0 {
        lemma_links_from_after(hits, k, i, nbrs.drop_last(), min_score);
        let id = nbrs.last().id;
        lemma_located_after(hits, k, id);
        search::lemma_locate_in_range(hits, id);
        if let Some(j) = search::locate(hits, id) {
            if j != k {
                assert(rest[moved(k, j)] == hits[j]);
            }
        }
    }
    assert(search::links_from(rest, moved(k, i), nbrs, min_score) =~= moved_links(
        k,
        search::links_from(hits, i, nbrs, min_score),
    ));
}

proof fn lemma_links_after(
    hits: Seq<Hit>,
    neighbours: Seq<Vec<Hit>>,
    min_score: Score,
    seeds: Option<&Vec<String>>,
    k: int,
    m: int,
)
    requires
        distinct_ids(hits),
        neighbours.len() == hits.len(),
        0 <= k < hits.len(),
        hits[k].no_duplicate,
        0 <= m <= neighbours.len(),
    ensures
        search::links_among(
            hits.remove(k),
            neighbours.remove(k).take(if m <= k {
                m
            } else {
                m - 1
            }),
            min_score,
            seeds,
        ) == moved_links(k, search::links_among(hits, neighbours.take(m), min_score, seeds)),
    decreases m,
{
    let rest = hits.remove(k);
    let lists = neighbours.remove(k);
    if m == 0 {
        assert(moved_links(k, search::links_among(hits, neighbours.take(0), min_score, seeds)) =~= Seq::<
            Link,
        >::empty());
    } else {
        lemma_links_after(hits, neighbours, min_score, seeds, k, m - 1);
        let i = m - 1;
        assert(neighbours.take(m).drop_last() =~= neighbours.take(m - 1));
        assert(neighbours.take(m).last() == neighbours[i]);
        if i != k {
            let at = moved(k, i);
            assert(lists.take(at + 1).drop_last() =~= lists.take(at));
            assert(lists.take(at + 1).last() == neighbours[i]);
            assert(rest[at] == hits[i]);
            lemma_links_from_after(hits, k, i, neighbours[i]@, min_score);
            let front = search::links_among(hits, neighbours.take(m - 1), min_score, seeds);
            let more = search::links_from(hits, i, neighbours[i]@, min_score);
            assert(moved_links(k, front + more) =~= moved_links(k, front) + moved_links(k, more));
        }
    }
}

proof fn lemma_connected_after(ls: Seq<Link>, k: int, x: int, y: int)
    requires
        untouched(ls, k),
        x != k,
        y != k,
    ensures
        links::connected(moved_links(k, ls), moved(k, x), moved(k, y)) <==> links::connected(ls, x, y),
{
    let ms = moved_links(k, ls);
    if links::connected(ls, x, y) {
        let p = choose|p: Seq<int>| links::leads(ls, p, x, y);
        let q = p.map_values(|v: int| moved(k, v));
        assert forall|i: int| 0 <= i < q.len() - 1 implies #[trigger] links::step_at(ms, q, i) by {
            assert(links::step_at(ls, p, i));
            let j = choose|j: int|
                0 <= j < ls.len() && ((#[trigger] ls[j]).a == p[i] && ls[j].b == p[i + 1] || ls[j].a == p[i + 1]
                    && ls[j].b == p[i]);
            assert(ms[j] == moved_link(k, ls[j]));
        }
        assert(links::leads(ms, q, moved(k, x), moved(k, y)));
    }
    if links::connected(ms, moved(k, x), moved(k, y)) {
        let q = choose|q: Seq<int>| links::leads(ms, q, moved(k, x), moved(k, y));
        let p = q.map_values(|v: int| unmoved(k, v));
        assert forall|i: int| 0 <= i < p.len() - 1 implies #[trigger] links::step_at(ls, p, i) by {
            assert(links::step_at(ms, q, i));
            let j = choose|j: int|
                0 <= j < ms.len() && ((#[trigger] ms[j]).a == q[i] && ms[j].b == q[i + 1] || ms[j].a == q[i + 1]
                    && ms[j].b == q[i]);
            assert(ms[j] == moved_link(k, ls[j]));
            assert(unmoved(k, ms[j].a) == ls[j].a && unmoved(k, ms[j].b) == ls[j].b);
        }
        assert(links::leads(ls, p, x, y));
    }
}

proof fn lemma_best_after(ls: Seq<Link>, k: int, a: int, b: int)
    requires
        untouched(ls, k),
        a != k,
        b != k,
    ensures
        links::best(moved_links(k, ls), moved(k, a), moved(k, b)) == links::best(ls, a, b),
    decreases ls.len(),
{
    if ls.len() > 0 {
        let front = ls.drop_last();
        assert forall|i: int| 0 <= i < front.len() implies (#[trigger] front[i]).a != k && front[i].b != k by {
            assert(front[i] == ls[i]);
        }
        lemma_best_after(front, k, a, b);
        assert(moved_links(k, ls).drop_last() =~= moved_links(k, front));
        let l = ls[ls.len() - 1];
        assert(l.a != k && l.b != k);
    }
}

spec fn moved_group(k: int, g: Seq<usize>) -> Seq<usize> {
    Seq::new(g.len(), |p: int| moved(k, g[p] as int) as usize)
}

/// A group without the chunk at `k` is, once that chunk was taken out, a group again.
proof fn lemma_group_after(
    hits: Seq<Hit>,
    ls: Seq<Link>,
    groups: Seq<Seq<usize>>,
    others: Seq<Seq<usize>>,
    k: int,
    g: int,
    h: int,
)
    requires
        0 <= k < hits.len() <= usize::MAX,
        untouched(ls, k),
        search::are_components(ls, hits.len() as int, groups),
        search::are_components(moved_links(k, ls), hits.len() - 1, others),
        0 <= g < groups.len(),
        0 <= h < others.len(),
        !groups[g].contains(k as usize),
        others[h].contains(moved(k, groups[g][0] as int) as usize),
    ensures
        alike(hits, ls, groups[g], hits.remove(k), moved_links(k, ls), others[h]),
{
    let n = hits.len() as int;
    let ms = moved_links(k, ls);
    let group = groups[g];
    let next = moved_group(k, group);
    let first = group[0];
    assert(group.contains(first));
    assert forall|p: int| 0 <= p < group.len() implies 0 <= (#[trigger] group[p]) < n && group[p] != k by {
        assert(group.contains(group[p]));
        assert(groups[g][p] < n);
    }
    assert(ascending(next)) by {
        assert forall|p: int, q: int| 0 <= p < q < next.len() implies #[trigger] next[p] < #[trigger] next[q] by {
            assert(groups[g][p] < groups[g][q]);
        }
    }
    assert forall|x: usize| #[trigger] next.contains(x) <==> others[h].contains(x) by {
        if next.contains(x) {
            let p = choose|p: int| 0 <= p < next.len() && next[p] == x;
            assert(x == moved(k, group[p] as int));
            assert(links::connected(ls, groups[g][0] as int, groups[g][p] as int));
            lemma_connected_after(ls, k, first as int, group[p] as int);
            search::law_one_component_each(ms, n - 1, others, h, moved(k, first as int) as usize, x);
        }
        if others[h].contains(x) {
            let q = choose|q: int| 0 <= q < others[h].len() && others[h][q] == x;
            assert(others[h][q] < n - 1);
            let y = unmoved(k, x as int);
            search::law_one_component_each(ms, n - 1, others, h, moved(k, first as int) as usize, x);
            lemma_connected_after(ls, k, first as int, y);
            search::law_one_component_each(ls, n, groups, g, first, y as usize);
            let p = choose|p: int| 0 <= p < group.len() && group[p] == y as usize;
            assert(next[p] == x);
        }
    }
    lemma_ascending_unique(next, others[h]);
    assert forall|p: int| 0 <= p < group.len() implies hits[#[trigger] group[p] as int] == hits.remove(
        k,
    )[next[p] as int] by {}
    assert forall|s: Score|
        #[trigger] search::similarity_within(ls, group, s) <==> #[trigger] search::similarity_within(ms, next, s) by {
        if search::similarity_within(ls, group, s) {
            let (a, b) = choose|a: usize, b: usize|
                group.contains(a) && group.contains(b) && a < b && #[trigger] links::best(ls, a as int, b as int)
                    == Some(s);
            let p = choose|p: int| 0 <= p < group.len() && group[p] == a;
            let q = choose|q: int| 0 <= q < group.len() && group[q] == b;
            assert(next[p] == moved(k, a as int) && next[q] == moved(k, b as int));
            assert(next.contains(next[p]) && next.contains(next[q]));
            lemma_best_after(ls, k, a as int, b as int);
            assert(links::best(ms, next[p] as int, next[q] as int) == Some(s));
        }
        if search::similarity_within(ms, next, s) {
            let (a, b) = choose|a: usize, b: usize|
                next.contains(a) && next.contains(b) && a < b && #[trigger] links::best(ms, a as int, b as int)
                    == Some(s);
            let p = choose|p: int| 0 <= p < next.len() && next[p] == a;
            let q = choose|q: int| 0 <= q < next.len() && next[q] == b;
            assert(group.contains(group[p]) && group.contains(group[q]));
            lemma_best_after(ls, k, group[p] as int, group[q] as int);
            assert(links::best(ls, group[p] as int, group[q] as int) == Some(s));
        }
    }
}

/// A chunk that opted out leaves no trace: the clusters of two or more are those of the same scan
/// with the chunk and its neighbour list taken out.
pub proof fn law_opted_out_leaves_no_trace(
    hits: Seq<Hit>,
    neighbours: Seq<Vec<Hit>>,
    min_score: Score,
    seeds: Option<&Vec<String>>,
    min_size: int,
    max_clusters: int,
    k: int,
    a: Seq<DupCluster>,
    b: Seq<DupCluster>,
)
    requires
        distinct_ids(hits),
        neighbours.len() == hits.len(),
        0 <= k < hits.len(),
        hits[k].no_duplicate,
        min_size >= 2,
        hits.len() <= max_clusters <= usize::MAX,
        search::are_clusters(
            hits,
            search::links_among(hits, neighbours, min_score, seeds),
            min_size,
            max_clusters,
            a,
        ),
        search::are_clusters(
            hits.remove(k),
            search::links_among(hits.remove(k), neighbours.remove(k), min_score, seeds),
            min_size,
            max_clusters,
            b,
        ),
    ensures
        same_clusters(a, b),
{
    let n = hits.len() as int;
    let rest = hits.remove(k);
    let ls = search::links_among(hits, neighbours, min_score, seeds);
    let ms = moved_links(k, ls);
    lemma_links_after(hits, neighbours, min_score, seeds, k, n);
    assert(neighbours.take(n) =~= neighbours);
    assert(neighbours.remove(k).take(n - 1) =~= neighbours.remove(k));
    assert(ms == search::links_among(rest, neighbours.remove(k), min_score, seeds));
    assert forall|i: int| 0 <= i < ls.len() implies (#[trigger] ls[i]).a != k && ls[i].b != k by {
        search::law_links_sound(hits, neighbours, min_score, seeds, i);
    }
    let (ga, ha, oa) = choose|groups: Seq<Seq<usize>>, highs: Seq<Score>, order: Seq<usize>|
        #[trigger] search::are_components(ls, n, groups) && #[trigger] search::are_listed(
            hits,
            ls,
            search::large(groups, min_size),
            highs,
            order,
            max_clusters,
            a,
        );
    let (gb, hb, ob) = choose|groups: Seq<Seq<usize>>, highs: Seq<Score>, order: Seq<usize>|
        #[trigger] search::are_components(ms, rest.len() as int, groups) && #[trigger] search::are_listed(
            rest,
            ms,
            search::large(groups, min_size),
            highs,
            order,
            max_clusters,
            b,
        );
    assert forall|g: int| 0 <= g < ga.len() && (#[trigger] ga[g]).len() >= min_size implies has_alike(
        hits,
        ls,
        ga[g],
        rest,
        ms,
        gb,
    ) by {
        if ga[g].contains(k as usize) {
            let x = if ga[g][0] == k {
                ga[g][1]
            } else {
                ga[g][0]
            };
            assert(ga[g][0] < ga[g][1]);
            assert(ga[g].contains(ga[g][0]) && ga[g].contains(ga[g][1]));
            assert(ga[g][0] < n && ga[g][1] < n);
            search::law_one_component_each(ls, n, ga, g, k as usize, x);
            search::law_opted_out_alone(hits, neighbours, min_score, seeds, k, x as int);
        }
        let x = ga[g][0];
        assert(ga[g].contains(x));
        assert(ga[g][0] < n);
        let y = moved(k, x as int);
        assert(search::placed(gb, y));
        let (h, q) = choose|h: int, q: int|
            0 <= h < gb.len() && 0 <= q < gb[h].len() && #[trigger] gb[h][q] == y;
        assert(gb[h][q] == y as usize);
        assert(gb[h].contains(y as usize));
        lemma_group_after(hits, ls, ga, gb, k, g, h);
    }
    assert forall|h: int| 0 <= h < gb.len() && (#[trigger] gb[h]).len() >= min_size implies has_alike(
        rest,
        ms,
        gb[h],
        hits,
        ls,
        ga,
    ) by {
        let y = gb[h][0];
        assert(gb[h].contains(y));
        assert(gb[h][0] < n - 1);
        let x = unmoved(k, y as int);
        assert(search::placed(ga, x));
        let (g, q) = choose|g: int, q: int|
            0 <= g < ga.len() && 0 <= q < ga[g].len() && #[trigger] ga[g][q] == x;
        assert(ga[g][q] == x as usize);
        assert(ga[g].contains(x as usize));
        if ga[g].contains(k as usize) {
            search::law_one_component_each(ls, n, ga, g, k as usize, x as usize);
            search::law_opted_out_alone(hits, neighbours, min_score, seeds, k, x);
        }
        let first = ga[g][0];
        assert(ga[g].contains(first));
        assert(ga[g][0] < n);
        search::law_one_component_each(ls, n, ga, g, x as usize, first);
        lemma_connected_after(ls, k, x, first as int);
        search::law_one_component_each(ms, n - 1, gb, h, y, moved(k, first as int) as usize);
        lemma_group_after(hits, ls, ga, gb, k, g, h);
        assert(alike(rest, ms, gb[h], hits, ls, ga[g])) by {
            assert forall|p: int| 0 <= p < gb[h].len() implies rest[#[trigger] gb[h][p] as int] == hits[ga[g][p] as int] by {
                assert(hits[ga[g][p] as int] == rest[gb[h][p] as int]);
            }
        }
    }
    lemma_matched(hits, ls, ga, max_clusters, a, rest, ms, gb, max_clusters, b, ha, oa, hb, ob, min_size);
    lemma_matched(rest, ms, gb, max_clusters, b, hits, ls, ga, max_clusters, a, hb, ob, ha, oa, min_size);
}

} // verus!
