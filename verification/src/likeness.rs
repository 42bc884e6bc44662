//! What the duplicate scan reports, read off the chunks and their neighbour lists.

use crate::clusters;
use crate::domain::{DupCluster, DupMember, Hit};
use crate::links;
use crate::links::Link;
use crate::ranking;
use crate::score::{Score, LARGEST, SMALLEST};
use crate::search;
use crate::service::query;
use crate::service::query::{DuplicateKnobs, DuplicateScan};
use crate::text;
use vstd::prelude::*;

verus! {

/// Whether row `m` of the neighbour list of chunk `i` names chunk `j` as a near duplicate: the two
/// differ, neither opted out, the path of `i` is a seed or none were given, and the row has the id of
/// `j` and a score that is not below the least one.
pub open spec fn names(
    hits: Seq<Hit>,
    neighbours: Seq<Vec<Hit>>,
    min_score: Score,
    seeds: Option<&Vec<String>>,
    i: int,
    j: int,
    m: int,
) -> bool {
    &&& 0 <= i < neighbours.len()
    &&& i < hits.len()
    &&& 0 <= j < hits.len()
    &&& i != j
    &&& !hits[i].no_duplicate
    &&& !hits[j].no_duplicate
    &&& seeds is Some ==> exists|s: int| 0 <= s < seeds->0@.len() && (#[trigger] seeds->0@[s])@ == hits[i].path@
    &&& 0 <= m < neighbours[i]@.len()
    &&& neighbours[i]@[m].id == hits[j].id
    &&& !neighbours[i]@[m].score.below(min_score)
}

/// Whether a row of the list of one of two chunks names the other.
pub open spec fn alike(
    hits: Seq<Hit>,
    neighbours: Seq<Vec<Hit>>,
    min_score: Score,
    seeds: Option<&Vec<String>>,
    i: int,
    j: int,
) -> bool {
    exists|m: int|
        #[trigger] names(hits, neighbours, min_score, seeds, i, j, m) || names(
            hits,
            neighbours,
            min_score,
            seeds,
            j,
            i,
            m,
        )
}

/// Whether the steps of `path` are alike one by one.
pub open spec fn chain(
    hits: Seq<Hit>,
    neighbours: Seq<Vec<Hit>>,
    min_score: Score,
    seeds: Option<&Vec<String>>,
    path: Seq<int>,
) -> bool {
    forall|s: int|
        0 < s < path.len() ==> alike(hits, neighbours, min_score, seeds, path[s - 1], #[trigger] path[s])
}

/// Whether a chain leads from chunk `x` to chunk `y`.
pub open spec fn chained(
    hits: Seq<Hit>,
    neighbours: Seq<Vec<Hit>>,
    min_score: Score,
    seeds: Option<&Vec<String>>,
    x: int,
    y: int,
) -> bool {
    exists|path: Seq<int>|
        path.len() > 0 && path[0] == x && path.last() == y && #[trigger] chain(
            hits,
            neighbours,
            min_score,
            seeds,
            path,
        )
}

/// Whether each of `xs` but the first is alike to an earlier one.
pub open spec fn grown(
    hits: Seq<Hit>,
    neighbours: Seq<Vec<Hit>>,
    min_score: Score,
    seeds: Option<&Vec<String>>,
    xs: Seq<int>,
) -> bool {
    forall|h: int|
        0 < h < xs.len() ==> exists|e: int|
            0 <= e < h && alike(hits, neighbours, min_score, seeds, #[trigger] xs[e], #[trigger] xs[h])
}

/// Whether every row that names a near duplicate has a number for its score, between the smallest and
/// the largest one.
pub open spec fn plain_scores(
    hits: Seq<Hit>,
    neighbours: Seq<Vec<Hit>>,
    min_score: Score,
    seeds: Option<&Vec<String>>,
) -> bool {
    forall|i: int, j: int, m: int|
        #[trigger] names(hits, neighbours, min_score, seeds, i, j, m) ==> {
            let score = neighbours[i]@[m].score;
            !score.nan() && -0x7f7f_ffff < score.rank() < 0x7f7f_ffff
        }
}

/// Whether a row with a score not below `low` names one of two chunks in the list of the other.
pub open spec fn alike_from(
    hits: Seq<Hit>,
    neighbours: Seq<Vec<Hit>>,
    min_score: Score,
    seeds: Option<&Vec<String>>,
    i: int,
    j: int,
    low: Score,
) -> bool {
    exists|m: int|
        {
            ||| #[trigger] names(hits, neighbours, min_score, seeds, i, j, m) && !neighbours[i]@[m].score.below(low)
            ||| names(hits, neighbours, min_score, seeds, j, i, m) && !neighbours[j]@[m].score.below(low)
        }
}

/// Whether a row with this score names one of the chunks in the list of another.
pub open spec fn scored_among(
    hits: Seq<Hit>,
    neighbours: Seq<Vec<Hit>>,
    min_score: Score,
    seeds: Option<&Vec<String>>,
    at: Seq<int>,
    score: Score,
) -> bool {
    exists|i: int, j: int, m: int|
        at.contains(i) && at.contains(j) && #[trigger] names(hits, neighbours, min_score, seeds, i, j, m)
            && neighbours[i]@[m].score == score
}

/// Whether a member row tells of a chunk.
pub open spec fn tells_of(row: DupMember, h: Hit) -> bool {
    &&& row.path@ == h.path@
    &&& row.start_line == h.start_line
    &&& row.end_line == h.end_line
    &&& row.symbol == h.symbol
}

/// Whether a cluster has a row for a chunk.
pub open spec fn reports(c: DupCluster, h: Hit) -> bool {
    exists|p: int| 0 <= p < c.members@.len() && tells_of(#[trigger] c.members@[p], h)
}

proof fn lemma_seeded(hits: Seq<Hit>, i: int, seeds: Option<&Vec<String>>)
    ensures
        search::seeded(seeds, hits[i].path@) <==> (seeds is Some ==> exists|s: int|
            0 <= s < seeds->0@.len() && (#[trigger] seeds->0@[s])@ == hits[i].path@),
{
    if let Some(list) = seeds {
        let all = text::views(list@);
        if all.contains(hits[i].path@) {
            let s = choose|s: int| 0 <= s < all.len() && all[s] == hits[i].path@;
            assert(list@[s]@ == hits[i].path@);
        }
        if exists|s: int| 0 <= s < list@.len() && (#[trigger] list@[s])@ == hits[i].path@ {
            let s = choose|s: int| 0 <= s < list@.len() && (#[trigger] list@[s])@ == hits[i].path@;
            assert(all[s] == hits[i].path@);
        }
    }
}

/// Whether a link joins `x` and `y`, the smaller place first, with this similarity.
spec fn joins(l: Link, x: int, y: int, sim: Score) -> bool {
    &&& x < y ==> l.a == x && l.b == y
    &&& x >= y ==> l.a == y && l.b == x
    &&& l.sim == sim
}

proof fn lemma_row_links(hits: Seq<Hit>, i: int, j: int, nbrs: Seq<Hit>, min_score: Score, m: int) -> (k: int)
    requires
        clusters::distinct_ids(hits),
        0 <= i < hits.len(),
        0 <= j < hits.len(),
        i != j,
        !hits[j].no_duplicate,
        0 <= m < nbrs.len(),
        nbrs[m].id == hits[j].id,
        !nbrs[m].score.below(min_score),
    ensures
        0 <= k < search::links_from(hits, i, nbrs, min_score).len(),
        joins(search::links_from(hits, i, nbrs, min_score)[k], i, j, nbrs[m].score),
    decreases nbrs.len(),
{
    let front = search::links_from(hits, i, nbrs.drop_last(), min_score);
    if m < nbrs.len() - 1 {
        lemma_row_links(hits, i, j, nbrs.drop_last(), min_score, m)
    } else {
        clusters::lemma_located(hits, j);
        front.len() as int
    }
}

proof fn lemma_named_links(
    hits: Seq<Hit>,
    neighbours: Seq<Vec<Hit>>,
    min_score: Score,
    seeds: Option<&Vec<String>>,
    i: int,
    j: int,
    m: int,
) -> (k: int)
    requires
        clusters::distinct_ids(hits),
        names(hits, neighbours, min_score, seeds, i, j, m),
    ensures
        0 <= k < search::links_among(hits, neighbours, min_score, seeds).len(),
        joins(search::links_among(hits, neighbours, min_score, seeds)[k], i, j, neighbours[i]@[m].score),
    decreases neighbours.len(),
{
    let rest = neighbours.drop_last();
    let front = search::links_among(hits, rest, min_score, seeds);
    if i < neighbours.len() - 1 {
        assert(rest[i] == neighbours[i]);
        assert(names(hits, rest, min_score, seeds, i, j, m));
        lemma_named_links(hits, rest, min_score, seeds, i, j, m)
    } else {
        lemma_seeded(hits, i, seeds);
        front.len() + lemma_row_links(hits, i, j, neighbours.last()@, min_score, m)
    }
}

proof fn lemma_link_of_row(hits: Seq<Hit>, i: int, nbrs: Seq<Hit>, min_score: Score, k: int) -> (jm: (int, int))
    requires
        0 <= i < hits.len(),
        0 <= k < search::links_from(hits, i, nbrs, min_score).len(),
    ensures
        0 <= jm.0 < hits.len(),
        jm.0 != i,
        !hits[jm.0].no_duplicate,
        0 <= jm.1 < nbrs.len(),
        nbrs[jm.1].id == hits[jm.0].id,
        !nbrs[jm.1].score.below(min_score),
        joins(search::links_from(hits, i, nbrs, min_score)[k], i, jm.0, nbrs[jm.1].score),
    decreases nbrs.len(),
{
    let front = search::links_from(hits, i, nbrs.drop_last(), min_score);
    search::lemma_locate_in_range(hits, nbrs.last().id);
    if k < front.len() {
        lemma_link_of_row(hits, i, nbrs.drop_last(), min_score, k)
    } else {
        (search::locate(hits, nbrs.last().id)->0, nbrs.len() - 1)
    }
}

proof fn lemma_link_is_named(
    hits: Seq<Hit>,
    neighbours: Seq<Vec<Hit>>,
    min_score: Score,
    seeds: Option<&Vec<String>>,
    k: int,
) -> (ijm: (int, int, int))
    requires
        neighbours.len() <= hits.len(),
        0 <= k < search::links_among(hits, neighbours, min_score, seeds).len(),
    ensures
        names(hits, neighbours, min_score, seeds, ijm.0, ijm.1, ijm.2),
        joins(
            search::links_among(hits, neighbours, min_score, seeds)[k],
            ijm.0,
            ijm.1,
            neighbours[ijm.0]@[ijm.2].score,
        ),
    decreases neighbours.len(),
{
    let rest = neighbours.drop_last();
    let front = search::links_among(hits, rest, min_score, seeds);
    let last = neighbours.len() - 1;
    if k < front.len() {
        let ijm = lemma_link_is_named(hits, rest, min_score, seeds, k);
        assert(rest[ijm.0] == neighbours[ijm.0]);
        ijm
    } else {
        let (j, m) = lemma_link_of_row(hits, last, neighbours.last()@, min_score, k - front.len());
        lemma_seeded(hits, last, seeds);
        (last, j, m)
    }
}

proof fn lemma_alike_adjacent(
    hits: Seq<Hit>,
    neighbours: Seq<Vec<Hit>>,
    min_score: Score,
    seeds: Option<&Vec<String>>,
    x: int,
    y: int,
)
    requires
        clusters::distinct_ids(hits),
        neighbours.len() <= hits.len(),
    ensures
        alike(hits, neighbours, min_score, seeds, x, y) <==> links::adjacent(
            search::links_among(hits, neighbours, min_score, seeds),
            x,
            y,
        ),
{
    let ls = search::links_among(hits, neighbours, min_score, seeds);
    if alike(hits, neighbours, min_score, seeds, x, y) {
        let m = choose|m: int|
            #[trigger] names(hits, neighbours, min_score, seeds, x, y, m) || names(
                hits,
                neighbours,
                min_score,
                seeds,
                y,
                x,
                m,
            );
        if names(hits, neighbours, min_score, seeds, x, y, m) {
            let k = lemma_named_links(hits, neighbours, min_score, seeds, x, y, m);
            assert(ls[k].a == x || ls[k].a == y);
        } else {
            let k = lemma_named_links(hits, neighbours, min_score, seeds, y, x, m);
            assert(ls[k].a == x || ls[k].a == y);
        }
    }
    if links::adjacent(ls, x, y) {
        let k = choose|k: int|
            0 <= k < ls.len() && ((#[trigger] ls[k]).a == x && ls[k].b == y || ls[k].a == y && ls[k].b == x);
        let (i, j, m) = lemma_link_is_named(hits, neighbours, min_score, seeds, k);
        assert(names(hits, neighbours, min_score, seeds, x, y, m) || names(
            hits,
            neighbours,
            min_score,
            seeds,
            y,
            x,
            m,
        ));
    }
}

/// Two chunks are connected in a scan exactly if a chain of rows, each naming a near duplicate, leads
/// from one to the other.
pub proof fn law_connected_by_rows(
    hits: Seq<Hit>,
    neighbours: Seq<Vec<Hit>>,
    min_score: Score,
    seeds: Option<&Vec<String>>,
    x: int,
    y: int,
)
    requires
        clusters::distinct_ids(hits),
        neighbours.len() <= hits.len(),
    ensures
        links::connected(search::links_among(hits, neighbours, min_score, seeds), x, y) <==> chained(
            hits,
            neighbours,
            min_score,
            seeds,
            x,
            y,
        ),
{
    let ls = search::links_among(hits, neighbours, min_score, seeds);
    if links::connected(ls, x, y) {
        let path = choose|path: Seq<int>| links::leads(ls, path, x, y);
        assert forall|s: int| 0 < s < path.len() implies alike(
            hits,
            neighbours,
            min_score,
            seeds,
            path[s - 1],
            #[trigger] path[s],
        ) by {
            assert(links::step_at(ls, path, s - 1));
            lemma_alike_adjacent(hits, neighbours, min_score, seeds, path[s - 1], path[s]);
        }
        assert(chain(hits, neighbours, min_score, seeds, path));
    }
    if chained(hits, neighbours, min_score, seeds, x, y) {
        let path = choose|path: Seq<int>|
            path.len() > 0 && path[0] == x && path.last() == y && #[trigger] chain(
                hits,
                neighbours,
                min_score,
                seeds,
                path,
            );
        assert forall|s: int| 0 <= s < path.len() - 1 implies #[trigger] links::step_at(ls, path, s) by {
            lemma_alike_adjacent(hits, neighbours, min_score, seeds, path[s], path[s + 1]);
            assert(alike(hits, neighbours, min_score, seeds, path[s + 1 - 1], path[s + 1]));
        }
        assert(links::leads(ls, path, x, y));
    }
}

/// A ranking of the members of a group by which `rows` are its member rows.
spec fn row_order(hits: Seq<Hit>, group: Seq<usize>, rows: Seq<DupMember>) -> Seq<usize> {
    choose|order: Seq<usize>|
        #[trigger] ranking::is_ranking(order, group.len() as int, search::member_before(hits, group)) && rows
            == Seq::new(group.len(), |k: int| search::row_of(hits[group[order[k] as int] as int]))
}

/// The places of the chunks that `rows` tell of.
spec fn row_places(hits: Seq<Hit>, group: Seq<usize>, rows: Seq<DupMember>) -> Seq<int> {
    Seq::new(group.len(), |p: int| group[row_order(hits, group, rows)[p] as int] as int)
}

/// Whether the chunk at `p` stands before the one at `q` among the rows of a cluster: by path, then by
/// first line, then by place.
pub open spec fn in_row_order(hits: Seq<Hit>, p: int, q: int) -> bool {
    let x = hits[p];
    let y = hits[q];
    text::precedes(x.path@, y.path@) || (x.path@ == y.path@ && (x.start_line < y.start_line || (x.start_line
        == y.start_line && p < q)))
}

/// Whether the first of some places comes before all of others.
pub open spec fn begins_before(a: Seq<int>, b: Seq<int>) -> bool {
    exists|p: int|
        0 <= p < a.len() && forall|q: int| 0 <= q < b.len() ==> (#[trigger] a[p]) < (#[trigger] b[q])
}

proof fn lemma_row_places(hits: Seq<Hit>, group: Seq<usize>, rows: Seq<DupMember>)
    requires
        search::are_rows(hits, group, rows),
        forall|a: int, b: int| 0 <= a < b < group.len() ==> #[trigger] group[a] < #[trigger] group[b],
    ensures
        row_places(hits, group, rows).len() == group.len() == rows.len(),
        forall|p: int|
            0 <= p < rows.len() ==> group.contains(#[trigger] row_places(hits, group, rows)[p] as usize)
                && 0 <= row_places(hits, group, rows)[p] <= usize::MAX && tells_of(
                rows[p],
                hits[row_places(hits, group, rows)[p]],
            ),
        forall|p: int, q: int|
            0 <= p < q < rows.len() ==> #[trigger] row_places(hits, group, rows)[p] != #[trigger] row_places(
                hits,
                group,
                rows,
            )[q] && in_row_order(hits, row_places(hits, group, rows)[p], row_places(hits, group, rows)[q]),
        forall|x: usize|
            #[trigger] group.contains(x) ==> row_places(hits, group, rows).contains(x as int),
{
    let before = search::member_before(hits, group);
    let order = row_order(hits, group, rows);
    let at = row_places(hits, group, rows);
    let n = group.len() as int;
    search::lemma_member_order(hits, group);
    assert forall|p: int| 0 <= p < rows.len() implies group.contains(#[trigger] at[p] as usize) && 0 <= at[p]
        <= usize::MAX && tells_of(rows[p], hits[at[p]]) by {
        assert(0 <= order[p] < n);
        assert(group[order[p] as int] == at[p]);
    }
    assert forall|p: int, q: int| 0 <= p < q < rows.len() implies #[trigger] at[p] != #[trigger] at[q]
        && in_row_order(hits, at[p], at[q]) by {
        assert(0 <= order[p] < n && 0 <= order[q] < n);
        assert(before(order[p] as int, order[q] as int));
        assert(order[p] != order[q]);
    }
    assert forall|x: usize| #[trigger] group.contains(x) implies at.contains(x as int) by {
        let q = choose|q: int| 0 <= q < n && group[q] == x;
        clusters::lemma_ascending_places(group, q);
        ranking::lemma_ranking_holds_all(order, n, before, q as usize);
        let p = choose|p: int| 0 <= p < order.len() && order[p] == q as usize;
        assert(at[p] == x as int);
    }
}

/// What a scan reports is made of its chunks. Row `p` of cluster `k` tells of the chunk at `at[k][p]`.
/// No chunk is told of twice. The rows of a cluster stand in the order of path, first line and place, and
/// the clusters in that of size, greatest similarity and first chunk. A chain
/// of near duplicates leads from each chunk of a cluster to each other one, and no near duplicate of
/// one of them is left out. The similarities of a cluster are scores of rows between its chunks: no such
/// row scores above the greatest one, and each pair has a row that does not score below the least one.
pub proof fn law_clusters_of_rows(
    hits: Seq<Hit>,
    neighbours: Seq<Vec<Hit>>,
    min_score: Score,
    seeds: Option<&Vec<String>>,
    min_size: int,
    max_clusters: int,
    r: Seq<DupCluster>,
) -> (at: Seq<Seq<int>>)
    requires
        clusters::distinct_ids(hits),
        neighbours.len() <= hits.len() <= usize::MAX,
        0 <= max_clusters,
        search::are_clusters(
            hits,
            search::links_among(hits, neighbours, min_score, seeds),
            min_size,
            max_clusters,
            r,
        ),
    ensures
        at.len() == r.len() <= max_clusters,
        forall|k: int|
            0 <= k < r.len() ==> (#[trigger] at[k]).len() == r[k].members@.len() == r[k].size >= min_size,
        forall|k: int, p: int|
            0 <= k < r.len() && 0 <= p < at[k].len() ==> 0 <= #[trigger] at[k][p] < hits.len() && tells_of(
                r[k].members@[p],
                hits[at[k][p]],
            ),
        forall|k: int, p: int, l: int, q: int|
            0 <= k < r.len() && 0 <= p < at[k].len() && 0 <= l < r.len() && 0 <= q < at[l].len() && (k != l || p
                != q) ==> #[trigger] at[k][p] != #[trigger] at[l][q],
        forall|k: int, p: int, q: int|
            0 <= k < r.len() && 0 <= p < q < at[k].len() ==> in_row_order(
                hits,
                #[trigger] at[k][p],
                #[trigger] at[k][q],
            ),
        forall|k: int, l: int|
            0 <= k < l < r.len() ==> {
                ||| (#[trigger] r[k]).size > (#[trigger] r[l]).size
                ||| r[k].size == r[l].size && r[k].max_sim.total_rank() > r[l].max_sim.total_rank()
                ||| r[k].size == r[l].size && r[k].max_sim.total_rank() == r[l].max_sim.total_rank() && begins_before(
                    at[k],
                    at[l],
                )
            },
        forall|k: int, p: int, q: int|
            0 <= k < r.len() && 0 <= p < at[k].len() && 0 <= q < at[k].len() ==> chained(
                hits,
                neighbours,
                min_score,
                seeds,
                #[trigger] at[k][p],
                #[trigger] at[k][q],
            ),
        forall|k: int, p: int, y: int|
            0 <= k < r.len() && 0 <= p < at[k].len() && #[trigger] alike(
                hits,
                neighbours,
                min_score,
                seeds,
                #[trigger] at[k][p],
                y,
            ) ==> at[k].contains(y),
        plain_scores(hits, neighbours, min_score, seeds) ==> {
            &&& forall|k: int, i: int, j: int, m: int|
                0 <= k < r.len() && (#[trigger] at[k]).contains(i) && at[k].contains(j) && #[trigger] names(
                    hits,
                    neighbours,
                    min_score,
                    seeds,
                    i,
                    j,
                    m,
                ) ==> !r[k].max_sim.below(neighbours[i]@[m].score) && alike_from(
                    hits,
                    neighbours,
                    min_score,
                    seeds,
                    i,
                    j,
                    r[k].min_sim,
                )
            &&& forall|k: int|
                0 <= k < r.len() && (#[trigger] at[k]).len() >= 2 ==> scored_among(
                    hits,
                    neighbours,
                    min_score,
                    seeds,
                    at[k],
                    r[k].max_sim,
                ) && scored_among(hits, neighbours, min_score, seeds, at[k], r[k].min_sim)
        },
{
    let ls = search::links_among(hits, neighbours, min_score, seeds);
    let n = hits.len() as int;
    let (groups, highs, order) = choose|groups: Seq<Seq<usize>>, highs: Seq<Score>, order: Seq<usize>|
        #[trigger] search::are_components(ls, n, groups) && #[trigger] search::are_listed(
            hits,
            ls,
            search::large(groups, min_size),
            highs,
            order,
            max_clusters,
            r,
        );
    let big = search::large(groups, min_size);
    let at = Seq::new(r.len(), |k: int| row_places(hits, big[order[k] as int], r[k].members@));
    assert forall|k: int| 0 <= k < r.len() implies (#[trigger] at[k]).len() == r[k].members@.len() == r[k].size
        >= min_size by {
        let g = lemma_listed_group(hits, ls, groups, min_size, highs, order, max_clusters, r, k);
        lemma_row_places(hits, groups[g], r[k].members@);
    }
    assert forall|k: int, p: int| 0 <= k < r.len() && 0 <= p < at[k].len() implies 0 <= #[trigger] at[k][p]
        < hits.len() && tells_of(r[k].members@[p], hits[at[k][p]]) by {
        let g = lemma_listed_group(hits, ls, groups, min_size, highs, order, max_clusters, r, k);
        lemma_row_places(hits, groups[g], r[k].members@);
        let x = choose|x: int| 0 <= x < groups[g].len() && groups[g][x] == at[k][p] as usize;
        assert(groups[g][x] < n);
    }
    assert forall|k: int, p: int, l: int, q: int|
        0 <= k < r.len() && 0 <= p < at[k].len() && 0 <= l < r.len() && 0 <= q < at[l].len() && (k != l || p
            != q) implies #[trigger] at[k][p] != #[trigger] at[l][q] by {
        let g = lemma_listed_group(hits, ls, groups, min_size, highs, order, max_clusters, r, k);
        let h = lemma_listed_group(hits, ls, groups, min_size, highs, order, max_clusters, r, l);
        lemma_row_places(hits, groups[g], r[k].members@);
        lemma_row_places(hits, groups[h], r[l].members@);
        if at[k][p] == at[l][q] {
            let x = at[k][p] as usize;
            assert(groups[g].contains(x) && groups[h].contains(x));
            clusters::lemma_one_group(ls, n, groups, g, h, x);
            if k == l {
                assert(at[k][p] != at[k][q]);
            } else {
                lemma_listed_once(hits, ls, groups, min_size, highs, order, max_clusters, r, k, l);
            }
        }
    }
    assert forall|k: int, p: int, q: int| 0 <= k < r.len() && 0 <= p < q < at[k].len() implies in_row_order(
        hits,
        #[trigger] at[k][p],
        #[trigger] at[k][q],
    ) by {
        let g = lemma_listed_group(hits, ls, groups, min_size, highs, order, max_clusters, r, k);
        lemma_row_places(hits, groups[g], r[k].members@);
        assert(in_row_order(hits, at[k][p], at[k][q]));
    }
    assert forall|k: int, l: int| 0 <= k < l < r.len() implies {
        ||| (#[trigger] r[k]).size > (#[trigger] r[l]).size
        ||| r[k].size == r[l].size && r[k].max_sim.total_rank() > r[l].max_sim.total_rank()
        ||| r[k].size == r[l].size && r[k].max_sim.total_rank() == r[l].max_sim.total_rank() && begins_before(
            at[k],
            at[l],
        )
    } by {
        let g = lemma_listed_group(hits, ls, groups, min_size, highs, order, max_clusters, r, k);
        let h = lemma_listed_group(hits, ls, groups, min_size, highs, order, max_clusters, r, l);
        lemma_row_places(hits, groups[g], r[k].members@);
        lemma_row_places(hits, groups[h], r[l].members@);
        assert(0 <= order[k] < highs.len() && 0 <= order[l] < highs.len());
        assert(search::cluster_before(big, highs)(order[k] as int, order[l] as int));
        if order[k] < order[l] {
            let pred = |g: Seq<usize>| g.len() >= min_size;
            let kept = crate::lists::lemma_filter_places(groups, pred);
            let x = kept[order[k] as int];
            let y = kept[order[l] as int];
            assert(x < y);
            assert(groups[x] == groups[g] && groups[y] == groups[h]);
            assert(groups[x][0] < groups[y][0]);
            let first = groups[x][0];
            assert(groups[g].len() > 0);
            assert(groups[g].contains(first));
            assert(at[k].contains(first as int));
            let p = choose|p: int| 0 <= p < at[k].len() && at[k][p] == first as int;
            assert forall|q: int| 0 <= q < at[l].len() implies (#[trigger] at[k][p]) < (#[trigger] at[l][q]) by {
                assert(groups[h].contains(at[l][q] as usize));
                let z = choose|z: int| 0 <= z < groups[h].len() && groups[h][z] == at[l][q] as usize;
                if z > 0 {
                    assert(groups[h][0] < groups[h][z]);
                }
            }
            assert(begins_before(at[k], at[l]));
        }
    }
    assert forall|k: int, p: int, q: int|
        0 <= k < r.len() && 0 <= p < at[k].len() && 0 <= q < at[k].len() implies chained(
        hits,
        neighbours,
        min_score,
        seeds,
        #[trigger] at[k][p],
        #[trigger] at[k][q],
    ) by {
        let g = lemma_listed_group(hits, ls, groups, min_size, highs, order, max_clusters, r, k);
        lemma_row_places(hits, groups[g], r[k].members@);
        assert(0 <= at[k][q] < n);
        assert(groups[g].contains(at[k][p] as usize) && groups[g].contains(at[k][q] as usize));
        search::law_one_component_each(ls, n, groups, g, at[k][p] as usize, at[k][q] as usize);
        law_connected_by_rows(hits, neighbours, min_score, seeds, at[k][p], at[k][q]);
    }
    assert forall|k: int, p: int, y: int|
        0 <= k < r.len() && 0 <= p < at[k].len() && #[trigger] alike(
            hits,
            neighbours,
            min_score,
            seeds,
            #[trigger] at[k][p],
            y,
        ) implies at[k].contains(y) by {
        let g = lemma_listed_group(hits, ls, groups, min_size, highs, order, max_clusters, r, k);
        lemma_row_places(hits, groups[g], r[k].members@);
        assert(0 <= at[k][p] < n);
        lemma_alike_adjacent(hits, neighbours, min_score, seeds, at[k][p], y);
        links::lemma_connected_adjacent(ls, at[k][p], y);
        assert(groups[g].contains(at[k][p] as usize));
        search::law_one_component_each(ls, n, groups, g, at[k][p] as usize, y as usize);
        assert(groups[g].contains(y as usize));
    }
    if plain_scores(hits, neighbours, min_score, seeds) {
        assert forall|k: int, i: int, j: int, m: int|
            0 <= k < r.len() && (#[trigger] at[k]).contains(i) && at[k].contains(j) && #[trigger] names(
                hits,
                neighbours,
                min_score,
                seeds,
                i,
                j,
                m,
            ) implies !r[k].max_sim.below(neighbours[i]@[m].score) && alike_from(
            hits,
            neighbours,
            min_score,
            seeds,
            i,
            j,
            r[k].min_sim,
        ) by {
            let g = lemma_listed_group(hits, ls, groups, min_size, highs, order, max_clusters, r, k);
            lemma_row_places(hits, groups[g], r[k].members@);
            let p = choose|p: int| 0 <= p < at[k].len() && at[k][p] == i;
            let q = choose|q: int| 0 <= q < at[k].len() && at[k][q] == j;
            assert(groups[g].contains(at[k][p] as usize) && groups[g].contains(at[k][q] as usize));
            lemma_row_within_bounds(hits, neighbours, min_score, seeds, groups[g], r[k], i, j, m);
        }
        assert forall|k: int| 0 <= k < r.len() && (#[trigger] at[k]).len() >= 2 implies scored_among(
            hits,
            neighbours,
            min_score,
            seeds,
            at[k],
            r[k].max_sim,
        ) && scored_among(hits, neighbours, min_score, seeds, at[k], r[k].min_sim) by {
            let g = lemma_listed_group(hits, ls, groups, min_size, highs, order, max_clusters, r, k);
            lemma_row_places(hits, groups[g], r[k].members@);
            let group = groups[g];
            let x = group[0] as int;
            let y = group[1] as int;
            assert(group[0] < group[1]);
            assert(groups[g][1] < n && groups[g][0] < n);
            assert(links::connected(ls, groups[g][0] as int, groups[g][1] as int));
            let z = search::lemma_first_step(hits, neighbours, min_score, seeds, x, y);
            links::lemma_connected_adjacent(ls, x, z);
            let w = choose|w: int|
                0 <= w < ls.len() && ((#[trigger] ls[w]).a == x && ls[w].b == z || ls[w].a == z && ls[w].b == x);
            search::law_links_sound(hits, neighbours, min_score, seeds, w);
            assert(group.contains(group[0]));
            search::law_one_component_each(ls, n, groups, g, group[0], z as usize);
            assert(group.contains(z as usize));
            lemma_bounds_are_scores(hits, neighbours, min_score, seeds, group, r[k], w);
            lemma_scored_places(hits, neighbours, min_score, seeds, group, at[k], r[k].max_sim);
            lemma_scored_places(hits, neighbours, min_score, seeds, group, at[k], r[k].min_sim);
        }
    }
    at
}

proof fn lemma_scored_places(
    hits: Seq<Hit>,
    neighbours: Seq<Vec<Hit>>,
    min_score: Score,
    seeds: Option<&Vec<String>>,
    group: Seq<usize>,
    at: Seq<int>,
    score: Score,
)
    requires
        scored_among(hits, neighbours, min_score, seeds, group.map_values(|u: usize| u as int), score),
        forall|x: usize| #[trigger] group.contains(x) ==> at.contains(x as int),
    ensures
        scored_among(hits, neighbours, min_score, seeds, at, score),
{
    let ints = group.map_values(|u: usize| u as int);
    let (i, j, m) = choose|i: int, j: int, m: int|
        ints.contains(i) && ints.contains(j) && #[trigger] names(hits, neighbours, min_score, seeds, i, j, m)
            && neighbours[i]@[m].score == score;
    let p = choose|p: int| 0 <= p < ints.len() && ints[p] == i;
    let q = choose|q: int| 0 <= q < ints.len() && ints[q] == j;
    assert(group.contains(group[p]) && group.contains(group[q]));
    assert(at.contains(i) && at.contains(j));
}

/// The similarity of a pair is that of one of its links.
proof fn lemma_best_of_pair(ls: Seq<Link>, a: int, b: int) -> (k: int)
    requires
        links::best(ls, a, b) is Some,
    ensures
        0 <= k < ls.len(),
        ls[k].a == a,
        ls[k].b == b,
        links::best(ls, a, b) == Some(ls[k].sim),
    decreases ls.len(),
{
    let front = ls.drop_last();
    let last = ls.len() - 1;
    if links::best(front, a, b) is Some {
        let k = lemma_best_of_pair(front, a, b);
        if links::best(ls, a, b) == links::best(front, a, b) {
            k
        } else {
            last
        }
    } else {
        last
    }
}

/// Among numbers, no link of a pair is above the similarity of the pair.
proof fn lemma_best_is_best(ls: Seq<Link>, k: int)
    requires
        0 <= k < ls.len(),
        forall|w: int| 0 <= w < ls.len() ==> !(#[trigger] ls[w]).sim.nan(),
    ensures
        links::best(ls, ls[k].a, ls[k].b) matches Some(s) && !s.below(ls[k].sim) && !s.nan(),
    decreases ls.len(),
{
    let front = ls.drop_last();
    assert forall|w: int| 0 <= w < front.len() implies !(#[trigger] front[w]).sim.nan() by {
        assert(front[w] == ls[w]);
    }
    if k < front.len() {
        lemma_best_is_best(front, k);
        assert(front[k] == ls[k]);
        assert(!ls.last().sim.nan()) by {
            assert(ls[ls.len() - 1] == ls.last());
        }
    } else {
        let seen = links::best(front, ls[k].a, ls[k].b);
        if seen is Some {
            let w = lemma_best_of_pair(front, ls[k].a, ls[k].b);
            assert(front[w] == ls[w]);
        }
    }
}

proof fn lemma_numbers(
    hits: Seq<Hit>,
    neighbours: Seq<Vec<Hit>>,
    min_score: Score,
    seeds: Option<&Vec<String>>,
)
    requires
        neighbours.len() <= hits.len(),
        plain_scores(hits, neighbours, min_score, seeds),
    ensures
        forall|w: int|
            0 <= w < search::links_among(hits, neighbours, min_score, seeds).len() ==> {
                let sim = (#[trigger] search::links_among(hits, neighbours, min_score, seeds)[w]).sim;
                !sim.nan() && -(LARGEST as int) < sim.rank() < LARGEST
            },
{
    let ls = search::links_among(hits, neighbours, min_score, seeds);
    assert forall|w: int| 0 <= w < ls.len() implies {
        let sim = (#[trigger] ls[w]).sim;
        !sim.nan() && -(LARGEST as int) < sim.rank() < LARGEST
    } by {
        let ijm = lemma_link_is_named(hits, neighbours, min_score, seeds, w);
    }
}

proof fn lemma_row_within_bounds(
    hits: Seq<Hit>,
    neighbours: Seq<Vec<Hit>>,
    min_score: Score,
    seeds: Option<&Vec<String>>,
    group: Seq<usize>,
    c: DupCluster,
    i: int,
    j: int,
    m: int,
)
    requires
        clusters::distinct_ids(hits),
        neighbours.len() <= hits.len() <= usize::MAX,
        plain_scores(hits, neighbours, min_score, seeds),
        search::is_cluster_of(hits, search::links_among(hits, neighbours, min_score, seeds), group, c),
        names(hits, neighbours, min_score, seeds, i, j, m),
        group.contains(i as usize),
        group.contains(j as usize),
    ensures
        !c.max_sim.below(neighbours[i]@[m].score),
        alike_from(hits, neighbours, min_score, seeds, i, j, c.min_sim),
{
    let ls = search::links_among(hits, neighbours, min_score, seeds);
    lemma_numbers(hits, neighbours, min_score, seeds);
    let k = lemma_named_links(hits, neighbours, min_score, seeds, i, j, m);
    lemma_best_is_best(ls, k);
    let a = ls[k].a as usize;
    let b = ls[k].b as usize;
    let w = lemma_best_of_pair(ls, ls[k].a, ls[k].b);
    let s = ls[w].sim;
    assert(links::best(ls, a as int, b as int) == Some(s));
    assert(search::similarity_within(ls, group, s));
    let (x, y, z) = lemma_link_is_named(hits, neighbours, min_score, seeds, w);
    assert(names(hits, neighbours, min_score, seeds, i, j, z) || names(hits, neighbours, min_score, seeds, j, i, z));
    lemma_extremes(ls, group, c, s);
}

/// Where some similarity of a group lies between the smallest and the largest number, its bounds are
/// similarities of the group.
proof fn lemma_extremes(ls: Seq<Link>, group: Seq<usize>, c: DupCluster, s: Score)
    requires
        search::is_least(ls, group, c.min_sim),
        search::is_greatest(ls, group, c.max_sim),
        search::similarity_within(ls, group, s),
        !s.nan(),
        -(LARGEST as int) < s.rank() < LARGEST,
    ensures
        search::similarity_within(ls, group, c.min_sim),
        search::similarity_within(ls, group, c.max_sim),
        !s.below(c.min_sim),
        !c.max_sim.below(s),
{
    let low = choose|low: Score|
        {
            &&& #[trigger] search::bounds_below(ls, group, low)
            &&& low.bits == LARGEST || search::similarity_within(ls, group, low)
            &&& c.min_sim == if low.bits == LARGEST {
                (Score { bits: 0 })
            } else {
                low
            }
        };
    let high = choose|high: Score|
        {
            &&& #[trigger] search::bounds_above(ls, group, high)
            &&& high.bits == SMALLEST || search::similarity_within(ls, group, high)
            &&& c.max_sim == if high.bits == SMALLEST {
                (Score { bits: 0 })
            } else {
                high
            }
        };
    assert(!s.below(low) && !high.below(s));
}

proof fn lemma_bounds_are_scores(
    hits: Seq<Hit>,
    neighbours: Seq<Vec<Hit>>,
    min_score: Score,
    seeds: Option<&Vec<String>>,
    group: Seq<usize>,
    c: DupCluster,
    w: int,
)
    requires
        neighbours.len() <= hits.len() <= usize::MAX,
        plain_scores(hits, neighbours, min_score, seeds),
        search::is_cluster_of(hits, search::links_among(hits, neighbours, min_score, seeds), group, c),
        0 <= w < search::links_among(hits, neighbours, min_score, seeds).len(),
        0 <= search::links_among(hits, neighbours, min_score, seeds)[w].a < search::links_among(
            hits,
            neighbours,
            min_score,
            seeds,
        )[w].b < hits.len(),
        group.contains(search::links_among(hits, neighbours, min_score, seeds)[w].a as usize),
        group.contains(search::links_among(hits, neighbours, min_score, seeds)[w].b as usize),
    ensures
        scored_among(hits, neighbours, min_score, seeds, group.map_values(|u: usize| u as int), c.min_sim),
        scored_among(hits, neighbours, min_score, seeds, group.map_values(|u: usize| u as int), c.max_sim),
{
    let ls = search::links_among(hits, neighbours, min_score, seeds);
    lemma_numbers(hits, neighbours, min_score, seeds);
    lemma_best_is_best(ls, w);
    let a = ls[w].a as usize;
    let b = ls[w].b as usize;
    let v = lemma_best_of_pair(ls, ls[w].a, ls[w].b);
    let s = ls[v].sim;
    assert(links::best(ls, a as int, b as int) == Some(s));
    assert(search::similarity_within(ls, group, s));
    lemma_extremes(ls, group, c, s);
    lemma_similarity_scored(hits, neighbours, min_score, seeds, group, c.min_sim);
    lemma_similarity_scored(hits, neighbours, min_score, seeds, group, c.max_sim);
}

proof fn lemma_similarity_scored(
    hits: Seq<Hit>,
    neighbours: Seq<Vec<Hit>>,
    min_score: Score,
    seeds: Option<&Vec<String>>,
    group: Seq<usize>,
    s: Score,
)
    requires
        neighbours.len() <= hits.len() <= usize::MAX,
        search::similarity_within(search::links_among(hits, neighbours, min_score, seeds), group, s),
    ensures
        scored_among(hits, neighbours, min_score, seeds, group.map_values(|u: usize| u as int), s),
{
    let ls = search::links_among(hits, neighbours, min_score, seeds);
    let ints = group.map_values(|u: usize| u as int);
    let (a, b) = choose|a: usize, b: usize|
        group.contains(a) && group.contains(b) && a < b && #[trigger] links::best(ls, a as int, b as int)
            == Some(s);
    let k = lemma_best_of_pair(ls, a as int, b as int);
    let (i, j, m) = lemma_link_is_named(hits, neighbours, min_score, seeds, k);
    let p = choose|p: int| 0 <= p < group.len() && group[p] == a;
    let q = choose|q: int| 0 <= q < group.len() && group[q] == b;
    assert(ints[p] == a as int && ints[q] == b as int);
    assert(ints.contains(i) && ints.contains(j));
}

/// The group that a reported cluster sums up.
proof fn lemma_listed_group(
    hits: Seq<Hit>,
    ls: Seq<Link>,
    groups: Seq<Seq<usize>>,
    min_size: int,
    highs: Seq<Score>,
    order: Seq<usize>,
    max_clusters: int,
    r: Seq<DupCluster>,
    k: int,
) -> (g: int)
    requires
        search::are_components(ls, hits.len() as int, groups),
        search::are_listed(hits, ls, search::large(groups, min_size), highs, order, max_clusters, r),
        0 <= max_clusters,
        0 <= k < r.len(),
    ensures
        0 <= g < groups.len(),
        groups[g] == search::large(groups, min_size)[order[k] as int],
        groups[g].len() >= min_size,
        search::is_cluster_of(hits, ls, groups[g], r[k]),
        search::are_rows(hits, groups[g], r[k].members@),
        forall|a: int, b: int| 0 <= a < b < groups[g].len() ==> #[trigger] groups[g][a] < #[trigger] groups[g][b],
{
    let big = search::large(groups, min_size);
    let pred = |g: Seq<usize>| g.len() >= min_size;
    let p = order[k] as int;
    assert(0 <= order[k] < highs.len());
    groups.lemma_filter_pred(pred, p);
    assert(groups.filter(pred).contains(big[p]));
    groups.lemma_filter_contains_rev(pred, big[p]);
    let g = choose|g: int| 0 <= g < groups.len() && groups[g] == big[p];
    assert(search::is_cluster_of(hits, ls, big[order[k] as int], r[k]));
    g
}

/// No group is summed up twice.
proof fn lemma_listed_once(
    hits: Seq<Hit>,
    ls: Seq<Link>,
    groups: Seq<Seq<usize>>,
    min_size: int,
    highs: Seq<Score>,
    order: Seq<usize>,
    max_clusters: int,
    r: Seq<DupCluster>,
    k: int,
    l: int,
)
    requires
        search::are_components(ls, hits.len() as int, groups),
        search::are_listed(hits, ls, search::large(groups, min_size), highs, order, max_clusters, r),
        0 <= max_clusters,
        0 <= k < r.len(),
        0 <= l < r.len(),
        k != l,
    ensures
        search::large(groups, min_size)[order[k] as int] != search::large(groups, min_size)[order[l] as int],
{
    let big = search::large(groups, min_size);
    let pred = |g: Seq<usize>| g.len() >= min_size;
    let before = search::cluster_before(big, highs);
    let (a, b) = if k < l {
        (k, l)
    } else {
        (l, k)
    };
    assert(0 <= order[a] < highs.len() && 0 <= order[b] < highs.len());
    assert(before(order[a] as int, order[b] as int));
    assert(order[a] != order[b]);
    let at = crate::lists::lemma_filter_places(groups, pred);
    let x = order[a] as int;
    let y = order[b] as int;
    let (lo, hi) = if x < y {
        (at[x], at[y])
    } else {
        (at[y], at[x])
    };
    assert(lo < hi);
    assert(groups[lo][0] < groups[hi][0]);
}

proof fn lemma_grown_together(
    hits: Seq<Hit>,
    neighbours: Seq<Vec<Hit>>,
    min_score: Score,
    seeds: Option<&Vec<String>>,
    xs: Seq<int>,
    h: int,
)
    requires
        clusters::distinct_ids(hits),
        neighbours.len() <= hits.len(),
        grown(hits, neighbours, min_score, seeds, xs),
        0 <= h < xs.len(),
    ensures
        links::connected(search::links_among(hits, neighbours, min_score, seeds), xs[0], xs[h]),
    decreases h,
{
    let ls = search::links_among(hits, neighbours, min_score, seeds);
    if h == 0 {
        links::lemma_connected_self(ls, xs[0]);
    } else {
        let e = choose|e: int|
            0 <= e < h && alike(hits, neighbours, min_score, seeds, #[trigger] xs[e], xs[h]);
        lemma_grown_together(hits, neighbours, min_score, seeds, xs, e);
        lemma_alike_adjacent(hits, neighbours, min_score, seeds, xs[e], xs[h]);
        links::lemma_connected_adjacent(ls, xs[e], xs[h]);
        links::lemma_connected_transitive(ls, xs[0], xs[e], xs[h]);
    }
}

/// Nothing is missed: different chunks, each alike to an earlier one, are reported in one cluster, if
/// they are as many as a cluster must have and the result was not cut off.
pub proof fn law_alike_chunks_are_reported(
    hits: Seq<Hit>,
    neighbours: Seq<Vec<Hit>>,
    min_score: Score,
    seeds: Option<&Vec<String>>,
    min_size: int,
    max_clusters: int,
    r: Seq<DupCluster>,
    xs: Seq<int>,
)
    requires
        clusters::distinct_ids(hits),
        neighbours.len() <= hits.len() <= usize::MAX,
        hits.len() <= max_clusters,
        search::are_clusters(
            hits,
            search::links_among(hits, neighbours, min_score, seeds),
            min_size,
            max_clusters,
            r,
        ),
        xs.len() > 0,
        xs.len() >= min_size,
        xs.no_duplicates(),
        forall|h: int| 0 <= h < xs.len() ==> 0 <= #[trigger] xs[h] < hits.len(),
        grown(hits, neighbours, min_score, seeds, xs),
    ensures
        exists|k: int|
            0 <= k < r.len() && forall|h: int| 0 <= h < xs.len() ==> reports(#[trigger] r[k], hits[#[trigger] xs[h]]),
{
    let ls = search::links_among(hits, neighbours, min_score, seeds);
    let n = hits.len() as int;
    let (groups, highs, order) = choose|groups: Seq<Seq<usize>>, highs: Seq<Score>, order: Seq<usize>|
        #[trigger] search::are_components(ls, n, groups) && #[trigger] search::are_listed(
            hits,
            ls,
            search::large(groups, min_size),
            highs,
            order,
            max_clusters,
            r,
        );
    let big = search::large(groups, min_size);
    let pred = |g: Seq<usize>| g.len() >= min_size;
    assert(search::placed(groups, xs[0]));
    let (g, q) = choose|g: int, q: int|
        0 <= g < groups.len() && 0 <= q < groups[g].len() && #[trigger] groups[g][q] == xs[0];
    let group = groups[g];
    assert(group.contains(xs[0] as usize));
    assert forall|h: int| 0 <= h < xs.len() implies group.contains(#[trigger] xs[h] as usize) by {
        lemma_grown_together(hits, neighbours, min_score, seeds, xs, h);
        search::law_one_component_each(ls, n, groups, g, xs[0] as usize, xs[h] as usize);
    }
    let ints = group.map_values(|u: usize| u as int);
    assert(xs.to_set().subset_of(ints.to_set())) by {
        assert forall|x: int| xs.to_set().contains(x) implies ints.to_set().contains(x) by {
            let h = choose|h: int| 0 <= h < xs.len() && xs[h] == x;
            let q = choose|q: int| 0 <= q < group.len() && group[q] == xs[h] as usize;
            assert(ints[q] == x);
        }
    }
    xs.unique_seq_to_set();
    ints.lemma_cardinality_of_set();
    vstd::set_lib::lemma_len_subset(xs.to_set(), ints.to_set());
    assert(group.len() >= xs.len());
    let at = crate::lists::lemma_filter_places(groups, pred);
    assert(at.contains(g));
    let b = choose|b: int| 0 <= b < at.len() && at[b] == g;
    assert(big[b] == group);
    assert(big.len() <= groups.len());
    if groups.len() > 0 {
        clusters::lemma_groups_bounded(ls, n, groups, groups.len() - 1);
    }
    lemma_places_bounded(at, groups.len() as int);
    assert(r.len() == highs.len());
    assert(ranking::strict_order(highs.len() as int, search::cluster_before(big, highs)));
    ranking::lemma_ranking_holds_all(order, highs.len() as int, search::cluster_before(big, highs), b as usize);
    let k = choose|k: int| 0 <= k < order.len() && order[k] == b as usize;
    assert(search::is_cluster_of(hits, ls, big[order[k] as int], r[k]));
    assert forall|a: int, b: int| 0 <= a < b < group.len() implies #[trigger] group[a] < #[trigger] group[b] by {
        assert(groups[g][a] < groups[g][b]);
    }
    lemma_row_places(hits, group, r[k].members@);
    assert forall|h: int| 0 <= h < xs.len() implies reports(r[k], hits[#[trigger] xs[h]]) by {
        let places = row_places(hits, group, r[k].members@);
        assert(group.contains(xs[h] as usize));
        assert(places.contains(xs[h]));
        let p = choose|p: int| 0 <= p < places.len() && places[p] == xs[h];
        assert(tells_of(r[k].members@[p], hits[places[p]]));
    }
}

proof fn lemma_places_bounded(at: Seq<int>, n: int)
    requires
        crate::lists::are_places(at, n),
    ensures
        at.len() == 0 || at.len() <= n,
    decreases at.len(),
{
    if at.len() > 1 {
        let front = at.drop_last();
        assert(at[at.len() - 2] < at[at.len() - 1] < n);
        assert(crate::lists::are_places(front, n - 1)) by {
            assert forall|k: int| 0 <= k < front.len() implies 0 <= #[trigger] front[k] < n - 1 by {
                assert(at[k] < at[at.len() - 1]);
            }
        }
        lemma_places_bounded(front, n - 1);
    } else if at.len() == 1 {
        assert(0 <= at[0] < n);
    }
}

/// If chunk `i` did not opt out and may seed, and a row of its neighbour list has the id of another
/// chunk `j` that did not opt out, with a score not below the least one, then the two are connected and
/// one cluster of the result reports both, as long as two make a cluster and nothing was cut off.
pub proof fn law_near_duplicates_share_a_cluster(
    hits: Seq<Hit>,
    neighbours: Seq<Vec<Hit>>,
    min_score: Score,
    seeds: Option<&Vec<String>>,
    min_size: int,
    max_clusters: int,
    r: Seq<DupCluster>,
    i: int,
    j: int,
    m: int,
)
    requires
        clusters::distinct_ids(hits),
        neighbours.len() <= hits.len() <= usize::MAX,
        hits.len() <= max_clusters,
        min_size <= 2,
        search::are_clusters(
            hits,
            search::links_among(hits, neighbours, min_score, seeds),
            min_size,
            max_clusters,
            r,
        ),
        0 <= i < neighbours.len(),
        0 <= j < hits.len(),
        i != j,
        !hits[i].no_duplicate,
        !hits[j].no_duplicate,
        seeds is Some ==> exists|s: int|
            0 <= s < seeds->0@.len() && (#[trigger] seeds->0@[s])@ == hits[i].path@,
        0 <= m < neighbours[i]@.len(),
        neighbours[i]@[m].id == hits[j].id,
        !neighbours[i]@[m].score.below(min_score),
    ensures
        links::connected(search::links_among(hits, neighbours, min_score, seeds), i, j),
        exists|k: int, p: int, q: int|
            0 <= k < r.len() && 0 <= p < r[k].members@.len() && 0 <= q < r[k].members@.len() && tells_of(
                #[trigger] r[k].members@[p],
                hits[i],
            ) && tells_of(#[trigger] r[k].members@[q], hits[j]),
{
    let ls = search::links_among(hits, neighbours, min_score, seeds);
    assert(names(hits, neighbours, min_score, seeds, i, j, m));
    assert(alike(hits, neighbours, min_score, seeds, i, j));
    lemma_alike_adjacent(hits, neighbours, min_score, seeds, i, j);
    links::lemma_connected_adjacent(ls, i, j);
    let xs = seq![i, j];
    assert(grown(hits, neighbours, min_score, seeds, xs)) by {
        assert(alike(hits, neighbours, min_score, seeds, xs[0], xs[1]));
    }
    law_alike_chunks_are_reported(hits, neighbours, min_score, seeds, min_size, max_clusters, r, xs);
    let k = choose|k: int|
        0 <= k < r.len() && forall|h: int|
            0 <= h < xs.len() ==> reports(#[trigger] r[k], hits[#[trigger] xs[h]]);
    assert(reports(r[k], hits[xs[0]]) && reports(r[k], hits[xs[1]]));
    let p = choose|p: int| 0 <= p < r[k].members@.len() && tells_of(#[trigger] r[k].members@[p], hits[i]);
    let q = choose|q: int| 0 <= q < r[k].members@.len() && tells_of(#[trigger] r[k].members@[q], hits[j]);
    assert(tells_of(r[k].members@[p], hits[i]) && tells_of(r[k].members@[q], hits[j]));
}

/// A whole scan finds what the store answers: where the answer for a chunk that did not opt out holds a
/// row with the id of another chunk that did not opt out, with a score not below the least one, a
/// cluster reports both, as long as two make a cluster and nothing was cut off.
pub proof fn law_scan_reports_near_duplicates<V>(
    chunks: Vec<(Hit, V)>,
    seeds: Option<Vec<String>>,
    knobs: DuplicateKnobs,
    scans: Seq<DuplicateScan<V>>,
    answers: Seq<Vec<Hit>>,
    min_size: int,
    r: Seq<DupCluster>,
    n: int,
    j: int,
    m: int,
)
    requires
        query::is_scan(chunks, seeds, knobs, scans, answers),
        scans.last().neighbours@.len() == chunks@.len() <= usize::MAX,
        clusters::distinct_ids(search::hits_of(chunks@)),
        min_size <= 2,
        chunks@.len() <= knobs.max_clusters,
        search::are_clusters(
            search::hits_of(chunks@),
            search::links_among(
                search::hits_of(chunks@),
                scans.last().neighbours@,
                knobs.min_score,
                query::seeds_of(&seeds),
            ),
            min_size,
            knobs.max_clusters as int,
            r,
        ),
        0 <= n < answers.len(),
        0 <= j < chunks@.len(),
        query::place_asked(scans, n) != j,
        !chunks@[query::place_asked(scans, n)].0.no_duplicate,
        !chunks@[j].0.no_duplicate,
        0 <= m < answers[n]@.len(),
        answers[n]@[m].id == chunks@[j].0.id,
        !answers[n]@[m].score.below(knobs.min_score),
    ensures
        exists|k: int, p: int, q: int|
            0 <= k < r.len() && 0 <= p < r[k].members@.len() && 0 <= q < r[k].members@.len() && tells_of(
                #[trigger] r[k].members@[p],
                chunks@[query::place_asked(scans, n)].0,
            ) && tells_of(#[trigger] r[k].members@[q], chunks@[j].0),
{
    query::law_scan_asks_each_seed_once(chunks, seeds, knobs, scans, answers);
    let i = query::place_asked(scans, n);
    let hits = search::hits_of(chunks@);
    query::law_asked_paths(seeds, chunks@[i].0.path@);
    if let Some(list) = &seeds {
        let s = choose|s: int| 0 <= s < seeds->0@.len() && (#[trigger] seeds->0@[s])@ == chunks@[i].0.path@;
        assert(query::seeds_of(&seeds)->0@[s]@ == hits[i].path@);
    }
    law_near_duplicates_share_a_cluster(
        hits,
        scans.last().neighbours@,
        knobs.min_score,
        query::seeds_of(&seeds),
        min_size,
        knobs.max_clusters as int,
        r,
        i,
        j,
        m,
    );
}

} // verus!
