//! Near-duplicate clustering: a union-find over the nearest-neighbour lists of all chunks.

use crate::domain::{DupCluster, DupMember, Hit};
use crate::links;
use crate::links::Link;
use crate::ranking;
use crate::score::{Score, LARGEST, SMALLEST};
use crate::text;
use std::collections::HashMap;
use vstd::prelude::*;

verus! {

/// Disjoint sets of the indices below some `n`, with path compression and union by size.
pub struct UnionFind {
    parent: Vec<usize>,
    size: Vec<usize>,
    reps: Ghost<Seq<int>>,
}

/// The indices whose representative is `r`.
pub open spec fn class(reps: Seq<int>, r: int) -> Set<int> {
    Set::new(|i: int| 0 <= i < reps.len() && reps[i] == r)
}

/// The representatives after the sets of `a` and `b` become one. The larger set's representative
/// stays; between sets of one size, that of `a`.
pub open spec fn merged(reps: Seq<int>, a: int, b: int) -> Seq<int> {
    let ra = reps[a];
    let rb = reps[b];
    if class(reps, ra).len() >= class(reps, rb).len() {
        reps.map_values(|r: int| if r == rb { ra } else { r })
    } else {
        reps.map_values(|r: int| if r == ra { rb } else { r })
    }
}

/// Whether each representative lies in range and stands for itself.
pub open spec fn are_reps(reps: Seq<int>) -> bool {
    &&& forall|i: int| 0 <= i < reps.len() ==> 0 <= #[trigger] reps[i] < reps.len()
    &&& forall|i: int| 0 <= i < reps.len() ==> reps[#[trigger] reps[i]] == reps[i]
}

impl View for UnionFind {
    type V = Seq<int>;

    /// The representative of each index.
    closed spec fn view(&self) -> Seq<int> {
        self.reps@
    }
}

impl UnionFind {
    /// The invariant: `parent` is a forest whose roots are the representatives, sizes grow from
    /// child to parent, and the size of a root counts its set.
    pub closed spec fn well_formed(&self) -> bool {
        let n = self.parent@.len();
        &&& self.size@.len() == n
        &&& self.reps@.len() == n
        &&& are_reps(self.reps@)
        &&& forall|i: int| 0 <= i < n ==> #[trigger] self.parent@[i] < n
        &&& forall|i: int| 0 <= i < n ==> self.reps@[#[trigger] self.parent@[i] as int] == self.reps@[i]
        &&& forall|i: int| 0 <= i < n ==> (#[trigger] self.parent@[i] == i <==> self.reps@[i] == i)
        &&& forall|i: int|
            0 <= i < n && #[trigger] self.parent@[i] != i ==> self.size@[i] < self.size@[self.parent@[i] as int]
        &&& forall|i: int|
            0 <= i < n && #[trigger] self.reps@[i] != i ==> self.size@[i] < self.size@[self.reps@[i]]
        &&& forall|i: int| 0 <= i < n ==> 1 <= #[trigger] self.size@[i] <= n
        &&& forall|r: int|
            0 <= r < n && #[trigger] self.reps@[r] == r ==> self.size@[r] == class(self.reps@, r).len()
    }

    /// `n` sets of one index each.
    pub fn new(n: usize) -> (r: UnionFind)
        ensures
            r.well_formed(),
            r@ == Seq::new(n as nat, |i: int| i),
    {
        let mut parent: Vec<usize> = Vec::new();
        let mut size: Vec<usize> = Vec::new();
        let mut i: usize = 0;
        while i < n
            invariant
                i <= n,
                parent@.len() == i,
                size@.len() == i,
                forall|k: int| 0 <= k < i ==> parent@[k] == k && size@[k] == 1,
            decreases n - i,
        {
            parent.push(i);
            size.push(1);
            i += 1;
        }
        let ghost reps = Seq::new(n as nat, |i: int| i);
        proof {
            assert forall|r: int| 0 <= r < n && #[trigger] reps[r] == r implies class(reps, r).len() == 1 by {
                assert(class(reps, r) =~= Set::empty().insert(r));
            }
        }
        UnionFind { parent, size, reps: Ghost(reps) }
    }

    /// The representative of the set that holds `x`. The sets stay as they are.
    pub fn find(&mut self, x: usize) -> (root: usize)
        requires
            old(self).well_formed(),
            x < old(self)@.len(),
        ensures
            final(self).well_formed(),
            final(self)@ == old(self)@,
            root == old(self)@[x as int],
            root < old(self)@.len(),
            are_reps(final(self)@),
    {
        let mut root: usize = x;
        while self.parent[root] != root
            invariant
                *self == *old(self),
                self.well_formed(),
                root < self.parent@.len(),
                self.reps@[root as int] == self.reps@[x as int],
            decreases self.parent@.len() - self.size@[root as int],
        {
            root = self.parent[root];
        }
        let mut cur: usize = x;
        while self.parent[cur] != root
            invariant
                self.well_formed(),
                self.reps@ == old(self).reps@,
                self.size@ == old(self).size@,
                self.parent@.len() == old(self).parent@.len(),
                cur < self.parent@.len(),
                root < self.parent@.len(),
                self.reps@[cur as int] == root,
                self.reps@[root as int] == root,
            decreases self.parent@.len() - self.size@[cur as int],
        {
            let next: usize = self.parent[cur];
            self.parent.set(cur, root);
            cur = next;
        }
        root
    }

    /// Makes one set of those that hold `a` and `b`.
    pub fn union(&mut self, a: usize, b: usize)
        requires
            old(self).well_formed(),
            a < old(self)@.len(),
            b < old(self)@.len(),
        ensures
            final(self).well_formed(),
            final(self)@ == merged(old(self)@, a as int, b as int),
            are_reps(final(self)@),
    {
        let ra: usize = self.find(a);
        let rb: usize = self.find(b);
        if ra == rb {
            assert(merged(self@, a as int, b as int) =~= self@);
            return;
        }
        let mut big: usize = ra;
        let mut small: usize = rb;
        if self.size[ra] < self.size[rb] {
            big = rb;
            small = ra;
        }
        let ghost reps = self.reps@;
        let ghost next = merged(reps, a as int, b as int);
        proof {
            let n = reps.len() as int;
            assert(next =~= reps.map_values(|r: int| if r == small { big as int } else { r }));
            let cb = class(reps, big as int);
            let cs = class(reps, small as int);
            lemma_class_within(reps, big as int);
            lemma_class_within(reps, small as int);
            let range = vstd::set_lib::set_int_range(0, n);
            vstd::set_lib::lemma_int_range(0, n);
            vstd::set_lib::lemma_set_disjoint_lens(cb, cs);
            vstd::set_lib::lemma_len_subset(cb + cs, range);
            assert(reps[big as int] == big && reps[small as int] == small);
            assert(cb.disjoint(cs));
            assert(cb.len() + cs.len() <= n);
            assert(n == self.parent.len());
            assert forall|r: int| 0 <= r < n && #[trigger] next[r] == r implies (if r == big {
                class(next, r) =~= cb + cs
            } else {
                class(next, r) =~= class(reps, r)
            }) by {}
        }
        let total: usize = self.size[big] + self.size[small];
        self.parent.set(small, big);
        self.size.set(big, total);
        self.reps = Ghost(next);
    }
}

proof fn lemma_class_within(reps: Seq<int>, r: int)
    ensures
        class(reps, r).finite(),
        class(reps, r).subset_of(vstd::set_lib::set_int_range(0, reps.len() as int)),
{
    let range = vstd::set_lib::set_int_range(0, reps.len() as int);
    vstd::set_lib::lemma_int_range(0, reps.len() as int);
    assert(class(reps, r).subset_of(range));
    vstd::set_lib::lemma_set_subset_finite(range, class(reps, r));
}

/// After a union two indices share a set exactly if they did before, or if one of them was with `a`
/// and the other with `b`.
pub proof fn lemma_union_joins(reps: Seq<int>, a: int, b: int, i: int, j: int)
    requires
        are_reps(reps),
        0 <= a < reps.len(),
        0 <= b < reps.len(),
        0 <= i < reps.len(),
        0 <= j < reps.len(),
    ensures
        are_reps(merged(reps, a, b)),
        merged(reps, a, b)[i] == merged(reps, a, b)[j] <==> (reps[i] == reps[j] || (reps[i] == reps[a] && reps[j]
            == reps[b]) || (reps[i] == reps[b] && reps[j] == reps[a])),
{
}

/// The search rows of a list of chunks, without their vectors.
pub open spec fn hits_of<V>(chunks: Seq<(Hit, V)>) -> Seq<Hit> {
    chunks.map_values(|c: (Hit, V)| c.0)
}

/// The place of the chunk with this id; the last one where several share it.
pub open spec fn locate(hits: Seq<Hit>, id: u64) -> Option<int>
    decreases hits.len(),
{
    if hits.len() == 0 {
        None
    } else if hits.last().id == id {
        Some(hits.len() - 1)
    } else {
        locate(hits.drop_last(), id)
    }
}

/// Whether a chunk of this path may seed a cluster. Without a seed list every chunk may.
pub open spec fn seeded(seeds: Option<&Vec<String>>, path: Seq<char>) -> bool {
    match seeds {
        None => true,
        Some(list) => text::views(list@).contains(path),
    }
}

/// The link that the neighbour `nb` of chunk `i` makes: one unless the neighbour's score is below
/// `min_score`, it is no known chunk, it opted out, or it is chunk `i` itself.
pub open spec fn link_of(hits: Seq<Hit>, i: int, nb: Hit, min_score: Score) -> Option<Link> {
    match locate(hits, nb.id) {
        Some(j) => if nb.score.below(min_score) || hits[j].no_duplicate || i == j {
            None
        } else {
            Some(
                Link {
                    a: if i < j {
                        i
                    } else {
                        j
                    },
                    b: if i < j {
                        j
                    } else {
                        i
                    },
                    sim: nb.score,
                },
            )
        },
        None => None,
    }
}

/// The links that the neighbours of chunk `i` make, in their order.
pub open spec fn links_from(hits: Seq<Hit>, i: int, nbrs: Seq<Hit>, min_score: Score) -> Seq<Link>
    decreases nbrs.len(),
{
    if nbrs.len() == 0 {
        Seq::empty()
    } else {
        let front = links_from(hits, i, nbrs.drop_last(), min_score);
        match link_of(hits, i, nbrs.last(), min_score) {
            Some(l) => front.push(l),
            None => front,
        }
    }
}

/// Whether chunk `i` may seed: it did not opt out, and its path is among the seeds.
pub open spec fn seeds_at(hits: Seq<Hit>, i: int, seeds: Option<&Vec<String>>) -> bool {
    !hits[i].no_duplicate && seeded(seeds, hits[i].path@)
}

/// All links, seed by seed.
pub open spec fn links_among(
    hits: Seq<Hit>,
    neighbours: Seq<Vec<Hit>>,
    min_score: Score,
    seeds: Option<&Vec<String>>,
) -> Seq<Link>
    decreases neighbours.len(),
{
    if neighbours.len() == 0 {
        Seq::empty()
    } else {
        let front = links_among(hits, neighbours.drop_last(), min_score, seeds);
        let i = neighbours.len() - 1;
        if seeds_at(hits, i, seeds) {
            front + links_from(hits, i, neighbours.last()@, min_score)
        } else {
            front
        }
    }
}

/// Whether `groups` are the connected components of the indices below `n`, each in ascending order,
/// ordered by their first members.
pub open spec fn are_components(ls: Seq<Link>, n: int, groups: Seq<Seq<usize>>) -> bool {
    &&& forall|g: int| 0 <= g < groups.len() ==> (#[trigger] groups[g]).len() > 0
    &&& forall|g: int, k: int|
        0 <= g < groups.len() && 0 <= k < groups[g].len() ==> (#[trigger] groups[g][k]) < n && links::connected(
            ls,
            groups[g][0] as int,
            groups[g][k] as int,
        )
    &&& forall|g: int, k: int, m: int|
        0 <= g < groups.len() && 0 <= k < m < groups[g].len() ==> #[trigger] groups[g][k] < #[trigger] groups[g][m]
    &&& forall|g: int, h: int|
        0 <= g < h < groups.len() ==> (#[trigger] groups[g])[0] < (#[trigger] groups[h])[0] && !links::connected(
            ls,
            groups[g][0] as int,
            groups[h][0] as int,
        )
    &&& forall|x: int| 0 <= x < n ==> #[trigger] placed(groups, x)
}

/// Whether some group holds `x`.
pub open spec fn placed(groups: Seq<Seq<usize>>, x: int) -> bool {
    exists|g: int, k: int| 0 <= g < groups.len() && 0 <= k < groups[g].len() && #[trigger] groups[g][k] == x
}

/// Whether `s` is the similarity of two chunks of the group.
pub open spec fn similarity_within(ls: Seq<Link>, group: Seq<usize>, s: Score) -> bool {
    exists|a: usize, b: usize|
        group.contains(a) && group.contains(b) && a < b && #[trigger] links::best(ls, a as int, b as int) == Some(s)
}

/// The least similarity in the group, not counting what is not a number and nothing above the
/// largest number. Zero where that leaves none below the largest number.
pub open spec fn is_least(ls: Seq<Link>, group: Seq<usize>, r: Score) -> bool {
    exists|m: Score|
        {
            &&& #[trigger] bounds_below(ls, group, m)
            &&& m.bits == LARGEST || similarity_within(ls, group, m)
            &&& r == if m.bits == LARGEST {
                Score { bits: 0 }
            } else {
                m
            }
        }
}

/// Whether no similarity in the group is below `m`, a number up to the largest.
pub open spec fn bounds_below(ls: Seq<Link>, group: Seq<usize>, m: Score) -> bool {
    &&& !m.nan()
    &&& m.rank() <= LARGEST
    &&& forall|s: Score| #[trigger] similarity_within(ls, group, s) ==> !s.below(m)
}

/// The greatest similarity in the group, not counting what is not a number and nothing below the
/// smallest number. Zero where that leaves none above the smallest number.
pub open spec fn is_greatest(ls: Seq<Link>, group: Seq<usize>, r: Score) -> bool {
    exists|m: Score|
        {
            &&& #[trigger] bounds_above(ls, group, m)
            &&& m.bits == SMALLEST || similarity_within(ls, group, m)
            &&& r == if m.bits == SMALLEST {
                Score { bits: 0 }
            } else {
                m
            }
        }
}

/// Whether no similarity in the group is above `m`, a number from the smallest up.
pub open spec fn bounds_above(ls: Seq<Link>, group: Seq<usize>, m: Score) -> bool {
    &&& !m.nan()
    &&& -(LARGEST as int) <= m.rank()
    &&& forall|s: Score| #[trigger] similarity_within(ls, group, s) ==> !m.below(s)
}

/// The order of the members of a group: by path, then by first line, then as they were.
pub open spec fn member_before(hits: Seq<Hit>, group: Seq<usize>) -> spec_fn(int, int) -> bool {
    |p: int, q: int|
        {
            let x = hits[group[p] as int];
            let y = hits[group[q] as int];
            ||| text::precedes(x.path@, y.path@)
            ||| x.path@ == y.path@ && (x.start_line < y.start_line || (x.start_line == y.start_line && p < q))
        }
}

/// The member row of a chunk.
pub open spec fn row_of(h: Hit) -> DupMember {
    DupMember { path: h.path, start_line: h.start_line, end_line: h.end_line, symbol: h.symbol }
}

/// Whether `rows` are the member rows of the group, in member order.
pub open spec fn are_rows(hits: Seq<Hit>, group: Seq<usize>, rows: Seq<DupMember>) -> bool {
    exists|order: Seq<usize>|
        #[trigger] ranking::is_ranking(order, group.len() as int, member_before(hits, group)) && rows == Seq::new(
            group.len(),
            |k: int| row_of(hits[group[order[k] as int] as int]),
        )
}

/// Whether `c` sums up the group.
pub open spec fn is_cluster_of(hits: Seq<Hit>, ls: Seq<Link>, group: Seq<usize>, c: DupCluster) -> bool {
    &&& c.size == group.len()
    &&& are_rows(hits, group, c.members@)
    &&& is_least(ls, group, c.min_sim)
    &&& is_greatest(ls, group, c.max_sim)
}

/// The groups with at least `min_size` members.
pub open spec fn large(groups: Seq<Seq<usize>>, min_size: int) -> Seq<Seq<usize>> {
    groups.filter(|g: Seq<usize>| g.len() >= min_size)
}

/// The order of the clusters: larger ones first, then by greatest similarity, then as they were.
pub open spec fn cluster_before(groups: Seq<Seq<usize>>, highs: Seq<Score>) -> spec_fn(int, int) -> bool {
    |p: int, q: int|
        {
            ||| groups[p].len() > groups[q].len()
            ||| groups[p].len() == groups[q].len() && (highs[p].total_rank() > highs[q].total_rank() || (
            highs[p].total_rank() == highs[q].total_rank() && p < q))
        }
}

/// Whether `r` are the first `max_clusters` of the large groups, in the ranking `order` by size and by
/// the greatest similarities `highs`.
pub open spec fn are_listed(
    hits: Seq<Hit>,
    ls: Seq<Link>,
    big: Seq<Seq<usize>>,
    highs: Seq<Score>,
    order: Seq<usize>,
    max_clusters: int,
    r: Seq<DupCluster>,
) -> bool {
    &&& highs.len() == big.len()
    &&& ranking::is_ranking(order, highs.len() as int, cluster_before(big, highs))
    &&& r.len() == if max_clusters < highs.len() {
        max_clusters
    } else {
        highs.len() as int
    }
    &&& forall|k: int|
        0 <= k < r.len() ==> {
            &&& is_cluster_of(hits, ls, big[order[k] as int], #[trigger] r[k])
            &&& r[k].max_sim == highs[order[k] as int]
        }
    &&& forall|g: int| 0 <= g < highs.len() ==> is_greatest(ls, big[g], #[trigger] highs[g])
}

/// Whether `r` are the first `max_clusters` of the large components of the links, in cluster order.
pub open spec fn are_clusters(
    hits: Seq<Hit>,
    ls: Seq<Link>,
    min_size: int,
    max_clusters: int,
    r: Seq<DupCluster>,
) -> bool {
    exists|groups: Seq<Seq<usize>>, highs: Seq<Score>, order: Seq<usize>|
        #[trigger] are_components(ls, hits.len() as int, groups) && #[trigger] are_listed(
            hits,
            ls,
            large(groups, min_size),
            highs,
            order,
            max_clusters,
            r,
        )
}

/// The links found so far, with the sets they connect and the similarity of each linked pair.
struct Scan {
    uf: UnionFind,
    edges: Vec<Vec<(usize, Score)>>,
    found: Ghost<Seq<Link>>,
}

spec fn edges_hold(edges: Seq<Vec<(usize, Score)>>, ls: Seq<Link>, n: int) -> bool {
    &&& edges.len() == n
    &&& forall|a: int, k: int|
        0 <= a < n && 0 <= k < edges[a]@.len() ==> a < (#[trigger] edges[a]@[k]).0 < n && links::best(
            ls,
            a,
            edges[a]@[k].0 as int,
        ) == Some(edges[a]@[k].1)
    &&& forall|a: int, k: int, m: int|
        0 <= a < n && 0 <= k < m < edges[a]@.len() ==> (#[trigger] edges[a]@[k]).0 != (#[trigger] edges[a]@[m]).0
    &&& forall|a: int, b: int|
        0 <= a < b < n && #[trigger] links::best(ls, a, b) is Some ==> lists(edges[a]@, b)
}

/// Whether a row of the pair table names `b`.
spec fn lists(row: Seq<(usize, Score)>, b: int) -> bool {
    exists|k: int| 0 <= k < row.len() && (#[trigger] row[k]).0 == b
}

impl Scan {
    spec fn tracks(&self, n: int) -> bool {
        &&& self.uf.well_formed()
        &&& self.uf@.len() == n
        &&& links::proper(self.found@, n)
        &&& forall|i: int, j: int|
            0 <= i < n && 0 <= j < n ==> (#[trigger] self.uf@[i] == #[trigger] self.uf@[j] <==> links::connected(
                self.found@,
                i,
                j,
            ))
        &&& edges_hold(self.edges@, self.found@, n)
    }

    fn new(n: usize) -> (r: Scan)
        ensures
            r.tracks(n as int),
            r.found@ == Seq::<Link>::empty(),
    {
        let uf = UnionFind::new(n);
        let mut edges: Vec<Vec<(usize, Score)>> = Vec::new();
        let mut i: usize = 0;
        while i < n
            invariant
                i <= n,
                edges@.len() == i,
                forall|k: int| 0 <= k < i ==> (#[trigger] edges@[k])@.len() == 0,
            decreases n - i,
        {
            edges.push(Vec::new());
            i += 1;
        }
        let ghost none = Seq::<Link>::empty();
        proof {
            assert forall|i: int, j: int| 0 <= i < n && 0 <= j < n implies (#[trigger] uf@[i]
                == #[trigger] uf@[j] <==> links::connected(none, i, j)) by {
                links::lemma_connected_none(i, j);
            }
        }
        Scan { uf, edges, found: Ghost(none) }
    }

    /// Records the link between `i` and `j`.
    fn link(&mut self, i: usize, j: usize, sim: Score, Ghost(n): Ghost<int>)
        requires
            old(self).tracks(n),
            i < n,
            j < n,
            i != j,
        ensures
            final(self).tracks(n),
            final(self).found@ == old(self).found@.push(
                Link {
                    a: if i < j {
                        i as int
                    } else {
                        j as int
                    },
                    b: if i < j {
                        j as int
                    } else {
                        i as int
                    },
                    sim,
                },
            ),
    {
        let a: usize = if i < j {
            i
        } else {
            j
        };
        let b: usize = if i < j {
            j
        } else {
            i
        };
        let ghost l = Link { a: a as int, b: b as int, sim };
        let ghost before = self.found@;
        let ghost after = before.push(l);
        let ghost rows = self.edges@;
        let mut k: usize = 0;
        while k < self.edges[a].len() && self.edges[a][k].0 != b
            invariant
                *self == *old(self),
                a < self.edges@.len(),
                k <= self.edges@[a as int]@.len(),
                forall|m: int| 0 <= m < k ==> (#[trigger] self.edges@[a as int]@[m]).0 != b,
            decreases self.edges@[a as int]@.len() - k,
        {
            k += 1;
        }
        proof {
            assert(after.drop_last() =~= before);
            assert(after.last() == l);
            assert forall|x: int, y: int| links::best(after, x, y) == (if x == a && y == b {
                match links::best(before, x, y) {
                    None => Some(sim),
                    Some(s) => Some(
                        if s.below(sim) {
                            sim
                        } else {
                            s
                        },
                    ),
                }
            } else {
                links::best(before, x, y)
            }) by {}
        }
        if k < self.edges[a].len() {
            let s: Score = self.edges[a][k].1;
            if s.is_below(&sim) {
                self.edges[a].set(k, (b, sim));
            }
        } else {
            self.edges[a].push((b, sim));
        }
        proof {
            let now = self.edges@;
            let kk = k as int;
            let row = rows[a as int]@;
            let row2 = now[a as int]@;
            assert forall|x: int| 0 <= x < n && x != a implies #[trigger] now[x] == rows[x] by {}
            if kk < row.len() {
                assert(row[kk].0 == b);
                assert(row2.len() == row.len());
                assert(forall|m: int| 0 <= m < row.len() && m != kk ==> #[trigger] row2[m] == row[m]);
                assert(row2[kk].0 == b);
            } else {
                assert(row2 =~= row.push((b, sim)));
                assert(row2[kk].0 == b);
                assert(!lists(row, b as int));
                assert(links::best(before, a as int, b as int) is None);
            }
            assert forall|x: int, y: int| 0 <= x < y < n && #[trigger] links::best(after, x, y) is Some implies lists(
                now[x]@,
                y,
            ) by {
                if x == a && y == b {
                    assert(row2[kk].0 == b);
                } else {
                    assert(links::best(before, x, y) is Some);
                    assert(lists(rows[x]@, y));
                    let m = choose|m: int| 0 <= m < rows[x]@.len() && (#[trigger] rows[x]@[m]).0 == y;
                    assert(now[x]@[m].0 == y);
                }
            }
            assert(edges_hold(now, after, n));
        }
        self.uf.union(a, b);
        self.found = Ghost(after);
        proof {
            let reps = old(self).uf@;
            assert forall|x: int, y: int| 0 <= x < n && 0 <= y < n implies (#[trigger] self.uf@[x]
                == #[trigger] self.uf@[y] <==> links::connected(after, x, y)) by {
                lemma_union_joins(reps, a as int, b as int, x, y);
                links::lemma_connected_push(before, l, x, y);
                assert(reps[x] == reps[y] <==> links::connected(before, x, y));
                assert(reps[x] == reps[a as int] <==> links::connected(before, x, a as int));
                assert(reps[b as int] == reps[y] <==> links::connected(before, b as int, y));
                assert(reps[x] == reps[b as int] <==> links::connected(before, x, b as int));
                assert(reps[a as int] == reps[y] <==> links::connected(before, a as int, y));
            }
        }
    }
}

/// The place of each chunk id, the last one where several chunks share it.
fn index_ids<V>(chunks: &[(Hit, V)]) -> (r: HashMap<u64, usize>)
    ensures
        forall|id: u64|
            (match #[trigger] locate(hits_of(chunks@), id) {
                Some(i) => r@.contains_key(id) && r@[id] == i,
                None => !r@.contains_key(id),
            }),
{
    broadcast use vstd::std_specs::hash::group_hash_axioms;

    let mut map: HashMap<u64, usize> = HashMap::new();
    let ghost hits = hits_of(chunks@);
    let mut i: usize = 0;
    while i < chunks.len()
        invariant
            i <= chunks@.len(),
            hits == hits_of(chunks@),
            forall|id: u64|
                (match #[trigger] locate(hits.take(i as int), id) {
                    Some(k) => map@.contains_key(id) && map@[id] == k,
                    None => !map@.contains_key(id),
                }),
        decreases chunks@.len() - i,
    {
        broadcast use vstd::std_specs::hash::group_hash_axioms;

        let ghost before = map@;
        map.insert(chunks[i].0.id, i);
        proof {
            let more = hits.take(i + 1);
            assert(more.drop_last() =~= hits.take(i as int));
            assert(more.last() == chunks@[i as int].0);
            assert forall|id: u64|
                (match #[trigger] locate(more, id) {
                    Some(k) => map@.contains_key(id) && map@[id] == k,
                    None => !map@.contains_key(id),
                }) by {
                let prior = locate(hits.take(i as int), id);
            }
        }
        i += 1;
    }
    assert(hits.take(i as int) =~= hits);
    map
}

pub(crate) proof fn lemma_locate_in_range(hits: Seq<Hit>, id: u64)
    ensures
        locate(hits, id) matches Some(i) ==> 0 <= i < hits.len() && hits[i].id == id,
    decreases hits.len(),
{
    if hits.len() > 0 {
        lemma_locate_in_range(hits.drop_last(), id);
    }
}

/// Whether a chunk of this path may seed a cluster.
fn may_seed(seeds: Option<&Vec<String>>, path: &str) -> (r: bool)
    ensures
        r == seeded(seeds, path@),
{
    match seeds {
        None => true,
        Some(list) => text::one_of(path, list),
    }
}

/// Follows the neighbour lists of all seeds.
fn scan<V>(
    chunks: &[(Hit, V)],
    neighbours: &[Vec<Hit>],
    min_score: Score,
    seed_paths: Option<&Vec<String>>,
) -> (r: Scan)
    requires
        neighbours@.len() <= chunks@.len(),
    ensures
        r.tracks(chunks@.len() as int),
        r.found@ == links_among(hits_of(chunks@), neighbours@, min_score, seed_paths),
{
    broadcast use vstd::std_specs::hash::group_hash_axioms;

    let ids = index_ids(chunks);
    let ghost hits = hits_of(chunks@);
    let ghost n = chunks@.len() as int;
    let mut found = Scan::new(chunks.len());
    let mut i: usize = 0;
    assert(neighbours@.take(0) =~= Seq::<Vec<Hit>>::empty());
    while i < neighbours.len()
        invariant
            i <= neighbours@.len() <= chunks@.len(),
            n == chunks@.len(),
            hits == hits_of(chunks@),
            found.tracks(n),
            found.found@ == links_among(hits, neighbours@.take(i as int), min_score, seed_paths),
            forall|id: u64|
                (match #[trigger] locate(hits, id) {
                    Some(k) => ids@.contains_key(id) && ids@[id] == k,
                    None => !ids@.contains_key(id),
                }),
        decreases neighbours@.len() - i,
    {
        let seed = &chunks[i].0;
        proof {
            assert(neighbours@.take(i + 1).drop_last() =~= neighbours@.take(i as int));
            assert(neighbours@.take(i + 1).last() == neighbours@[i as int]);
            assert(hits[i as int] == chunks@[i as int].0);
        }
        if !seed.no_duplicate && may_seed(seed_paths, seed.path.as_str()) {
            let nbrs = &neighbours[i];
            let ghost base = found.found@;
            let mut k: usize = 0;
            assert(nbrs@.take(0) =~= Seq::<Hit>::empty());
            assert(base + links_from(hits, i as int, nbrs@.take(0), min_score) =~= base);
            while k < nbrs.len()
                invariant
                    i < chunks@.len(),
                    k <= nbrs@.len(),
                    n == chunks@.len(),
                    hits == hits_of(chunks@),
                    found.tracks(n),
                    found.found@ == base + links_from(hits, i as int, nbrs@.take(k as int), min_score),
                    forall|id: u64|
                        (match #[trigger] locate(hits, id) {
                            Some(m) => ids@.contains_key(id) && ids@[id] == m,
                            None => !ids@.contains_key(id),
                        }),
                decreases nbrs@.len() - k,
            {
                broadcast use vstd::std_specs::hash::group_hash_axioms;

                let nb = &nbrs[k];
                proof {
                    assert(nbrs@.take(k + 1).drop_last() =~= nbrs@.take(k as int));
                    assert(nbrs@.take(k + 1).last() == nb);
                    lemma_locate_in_range(hits, nb.id);
                }
                let ghost front = links_from(hits, i as int, nbrs@.take(k as int), min_score);
                if !nb.score.is_below(&min_score) {
                    if let Some(place) = ids.get(&nb.id) {
                        let j: usize = *place;
                        assert(hits[j as int] == chunks@[j as int].0);
                        if !chunks[j].0.no_duplicate && i != j {
                            found.link(i, j, nb.score, Ghost(n));
                            proof {
                                let l = link_of(hits, i as int, *nb, min_score)->0;
                                assert(found.found@ =~= base + front.push(l));
                            }
                        }
                    }
                }
                k += 1;
            }
            assert(nbrs@.take(k as int) =~= nbrs@);
        }
        i += 1;
    }
    assert(neighbours@.take(i as int) =~= neighbours@);
    found
}

/// The contents of a list of groups.
pub open spec fn group_views(groups: Seq<Vec<usize>>) -> Seq<Seq<usize>> {
    groups.map_values(|g: Vec<usize>| g@)
}

/// Whether `groups` gather the indices below `i` by representative.
spec fn gathers(reps: Seq<int>, i: int, groups: Seq<Seq<usize>>) -> bool {
    &&& forall|g: int| 0 <= g < groups.len() ==> (#[trigger] groups[g]).len() > 0
    &&& forall|g: int, k: int|
        0 <= g < groups.len() && 0 <= k < groups[g].len() ==> (#[trigger] groups[g][k]) < i
            && reps[groups[g][0] as int] == reps[groups[g][k] as int]
    &&& forall|g: int, k: int, m: int|
        0 <= g < groups.len() && 0 <= k < m < groups[g].len() ==> #[trigger] groups[g][k] < #[trigger] groups[g][m]
    &&& forall|g: int, h: int|
        0 <= g < h < groups.len() ==> (#[trigger] groups[g])[0] < (#[trigger] groups[h])[0]
            && reps[groups[g][0] as int] != reps[groups[h][0] as int]
    &&& forall|x: int| 0 <= x < i ==> #[trigger] placed(groups, x)
}

/// Whether `slots` tells the group of each representative, `n` meaning none.
spec fn slots_hold(reps: Seq<int>, slots: Seq<usize>, groups: Seq<Seq<usize>>) -> bool {
    let n = reps.len() as int;
    &&& slots.len() == n
    &&& groups.len() <= n
    &&& forall|r: int| 0 <= r < n ==> (#[trigger] slots[r] == n || (slots[r] < groups.len() && reps[groups[slots[r] as int][0] as int] == r))
    &&& forall|g: int| 0 <= g < groups.len() ==> slots[reps[(#[trigger] groups[g])[0] as int]] == g
}

/// The sets of a union-find, each in ascending order, ordered by their first members.
fn gather(uf: &mut UnionFind, n: usize) -> (groups: Vec<Vec<usize>>)
    requires
        old(uf).well_formed(),
        old(uf)@.len() == n,
    ensures
        gathers(old(uf)@, n as int, group_views(groups@)),
{
    let ghost reps = uf@;
    let mut slots: Vec<usize> = Vec::new();
    let mut k: usize = 0;
    while k < n
        invariant
            k <= n,
            slots@.len() == k,
            forall|r: int| 0 <= r < k ==> slots@[r] == n,
        decreases n - k,
    {
        slots.push(n);
        k += 1;
    }
    let mut groups: Vec<Vec<usize>> = Vec::new();
    let mut i: usize = 0;
    while i < n
        invariant
            i <= n,
            uf.well_formed(),
            uf@ == reps,
            are_reps(reps),
            reps.len() == n,
            groups@.len() <= i,
            gathers(reps, i as int, group_views(groups@)),
            slots_hold(reps, slots@, group_views(groups@)),
        decreases n - i,
    {
        let root: usize = uf.find(i);
        let ghost before = group_views(groups@);
        let slot: usize = slots[root];
        if slot < n {
            groups[slot].push(i);
            proof {
                let now = group_views(groups@);
                let s = slot as int;
                assert(now.len() == before.len());
                assert(forall|g: int| 0 <= g < now.len() && g != s ==> #[trigger] now[g] == before[g]);
                assert(now[s] =~= before[s].push(i));
                assert(now[s][0] == before[s][0]);
                let last = before[s].len() as int;
                assert(now[s][last] == i);
                assert forall|x: int| 0 <= x < i + 1 implies #[trigger] placed(now, x) by {
                    if x < i {
                        assert(placed(before, x));
                        let (g, k) = choose|g: int, k: int|
                            0 <= g < before.len() && 0 <= k < before[g].len() && #[trigger] before[g][k] == x;
                        assert(now[g][k] == x);
                    } else {
                        assert(now[s][last] == x);
                    }
                }
            }
        } else {
            let mut fresh: Vec<usize> = Vec::new();
            fresh.push(i);
            let place: usize = groups.len();
            groups.push(fresh);
            slots.set(root, place);
            proof {
                let now = group_views(groups@);
                assert(now =~= before.push(seq![i]));
                let p = place as int;
                assert(now[p][0] == i);
                assert forall|x: int| 0 <= x < i + 1 implies #[trigger] placed(now, x) by {
                    if x < i {
                        assert(placed(before, x));
                        let (g, k) = choose|g: int, k: int|
                            0 <= g < before.len() && 0 <= k < before[g].len() && #[trigger] before[g][k] == x;
                        assert(now[g][k] == x);
                    } else {
                        assert(now[p][0] == x);
                    }
                }
            }
        }
        i += 1;
    }
    groups
}

proof fn lemma_components(ls: Seq<Link>, reps: Seq<int>, groups: Seq<Seq<usize>>)
    requires
        forall|i: int, j: int|
            0 <= i < reps.len() && 0 <= j < reps.len() ==> (#[trigger] reps[i] == #[trigger] reps[j]
                <==> links::connected(ls, i, j)),
        gathers(reps, reps.len() as int, groups),
    ensures
        are_components(ls, reps.len() as int, groups),
{
    let n = reps.len() as int;
    assert forall|g: int, k: int| 0 <= g < groups.len() && 0 <= k < groups[g].len() implies (#[trigger] groups[g][k])
        < n && links::connected(ls, groups[g][0] as int, groups[g][k] as int) by {
        assert(groups[g][0] < n);
        assert(reps[groups[g][0] as int] == reps[groups[g][k] as int]);
    }
    assert forall|g: int, h: int| 0 <= g < h < groups.len() implies (#[trigger] groups[g])[0] < (
    #[trigger] groups[h])[0] && !links::connected(ls, groups[g][0] as int, groups[h][0] as int) by {
        assert(groups[g][0] < n);
        assert(groups[h][0] < n);
        assert(reps[groups[g][0] as int] != reps[groups[h][0] as int]);
    }
}

/// A component holds whatever is connected with one of its members.
pub proof fn lemma_component_closed(ls: Seq<Link>, n: int, groups: Seq<Seq<usize>>, g: int, a: usize, b: usize)
    requires
        are_components(ls, n, groups),
        0 <= g < groups.len(),
        groups[g].contains(a),
        b < n,
        links::connected(ls, a as int, b as int),
    ensures
        groups[g].contains(b),
{
    let first = groups[g][0] as int;
    let p = choose|p: int| 0 <= p < groups[g].len() && groups[g][p] == a;
    assert(groups[g][p] == a);
    assert(links::connected(ls, first, a as int));
    links::lemma_connected_transitive(ls, first, a as int, b as int);
    assert(placed(groups, b as int));
    let (h, k) = choose|h: int, k: int|
        0 <= h < groups.len() && 0 <= k < groups[h].len() && #[trigger] groups[h][k] == b as int;
    let other = groups[h][0] as int;
    assert(links::connected(ls, other, b as int));
    links::lemma_connected_symmetric(ls, other, b as int);
    links::lemma_connected_transitive(ls, first, b as int, other);
    if g < h {
        assert(!links::connected(ls, groups[g][0] as int, groups[h][0] as int));
    } else if h < g {
        links::lemma_connected_symmetric(ls, first, other);
        assert(!links::connected(ls, groups[h][0] as int, groups[g][0] as int));
    }
    assert(groups[g][k] == b);
}

/// The least and the greatest similarity in a group.
fn bounds_of(
    edges: &Vec<Vec<(usize, Score)>>,
    group: &Vec<usize>,
    Ghost(ls): Ghost<Seq<Link>>,
    Ghost(n): Ghost<int>,
) -> (r: (Score, Score))
    requires
        edges_hold(edges@, ls, n),
        forall|p: int| 0 <= p < group@.len() ==> #[trigger] group@[p] < n,
        forall|a: usize, b: usize|
            group@.contains(a) && a < b < n && #[trigger] links::best(ls, a as int, b as int) is Some
                ==> group@.contains(b),
    ensures
        is_least(ls, group@, r.0),
        is_greatest(ls, group@, r.1),
{
    let mut low = Score { bits: LARGEST };
    let mut high = Score { bits: SMALLEST };
    let mut p: usize = 0;
    while p < group.len()
        invariant
            p <= group@.len(),
            edges_hold(edges@, ls, n),
            forall|q: int| 0 <= q < group@.len() ==> #[trigger] group@[q] < n,
            forall|a: usize, b: usize|
                group@.contains(a) && a < b < n && #[trigger] links::best(ls, a as int, b as int) is Some
                    ==> group@.contains(b),
            !low.nan(),
            low.rank() <= LARGEST,
            low.bits == LARGEST || similarity_within(ls, group@, low),
            !high.nan(),
            high.rank() >= -(LARGEST as int),
            high.bits == SMALLEST || similarity_within(ls, group@, high),
            forall|q: int, k: int|
                0 <= q < p && 0 <= k < edges@[group@[q] as int]@.len() ==> !(
                #[trigger] edges@[group@[q] as int]@[k]).1.below(low) && !high.below(
                    edges@[group@[q] as int]@[k].1,
                ),
        decreases group@.len() - p,
    {
        let a: usize = group[p];
        let row = &edges[a];
        let mut k: usize = 0;
        while k < row.len()
            invariant
                k <= row@.len(),
                p < group@.len(),
                a == group@[p as int],
                a < n,
                *row == edges@[a as int],
                edges_hold(edges@, ls, n),
                forall|x: usize, b: usize|
                    group@.contains(x) && x < b < n && #[trigger] links::best(ls, x as int, b as int) is Some
                        ==> group@.contains(b),
                !low.nan(),
                low.rank() <= LARGEST,
                low.bits == LARGEST || similarity_within(ls, group@, low),
                !high.nan(),
                high.rank() >= -(LARGEST as int),
                high.bits == SMALLEST || similarity_within(ls, group@, high),
                forall|q: int, m: int|
                    0 <= q < p && 0 <= m < edges@[group@[q] as int]@.len() ==> !(
                    #[trigger] edges@[group@[q] as int]@[m]).1.below(low) && !high.below(
                        edges@[group@[q] as int]@[m].1,
                    ),
                forall|m: int| 0 <= m < k ==> !(#[trigger] row@[m]).1.below(low) && !high.below(row@[m].1),
            decreases row@.len() - k,
        {
            let s: Score = row[k].1;
            proof {
                let b = edges@[a as int]@[k as int].0;
                assert(links::best(ls, a as int, b as int) == Some(s));
                assert(group@.contains(a));
                assert(group@.contains(b));
                assert(similarity_within(ls, group@, s));
            }
            low = low.min(s);
            high = high.max(s);
            k += 1;
        }
        p += 1;
    }
    proof {
        assert forall|s: Score| #[trigger] similarity_within(ls, group@, s) implies !s.below(low) && !high.below(s) by {
            let (a, b) = choose|a: usize, b: usize|
                group@.contains(a) && group@.contains(b) && a < b && #[trigger] links::best(
                    ls,
                    a as int,
                    b as int,
                ) == Some(s);
            let q = choose|q: int| 0 <= q < group@.len() && group@[q] == a;
            let z = choose|z: int| 0 <= z < group@.len() && group@[z] == b;
            assert(group@[q] < n && group@[z] < n);
            assert(lists(edges@[a as int]@, b as int));
            let k = choose|k: int| 0 <= k < edges@[a as int]@.len() && (#[trigger] edges@[a as int]@[k]).0 == b;
            assert(edges@[group@[q] as int]@[k].1 == s);
        }
        assert(bounds_below(ls, group@, low));
        assert(bounds_above(ls, group@, high));
    }
    let least = if low.bits == LARGEST {
        Score { bits: 0 }
    } else {
        low
    };
    let greatest = if high.bits == SMALLEST {
        Score { bits: 0 }
    } else {
        high
    };
    (least, greatest)
}

/// A copy of an optional text.
pub fn copy_text(s: &Option<String>) -> (r: Option<String>)
    ensures
        r == *s,
{
    match s {
        Some(t) => Some(t.clone()),
        None => None,
    }
}

pub(crate) proof fn lemma_member_order(hits: Seq<Hit>, group: Seq<usize>)
    ensures
        ranking::strict_order(group.len() as int, member_before(hits, group)),
{
    let before = member_before(hits, group);
    let n = group.len() as int;
    assert forall|i: int| 0 <= i < n implies !#[trigger] before(i, i) by {
        let x = hits[group[i] as int].path@;
        text::lemma_precedes_order(x, x, x);
    }
    assert forall|i: int, j: int| 0 <= i < n && 0 <= j < n && i != j implies #[trigger] before(i, j) || before(
        j,
        i,
    ) by {
        let x = hits[group[i] as int].path@;
        let y = hits[group[j] as int].path@;
        text::lemma_precedes_order(x, y, x);
    }
    assert forall|i: int, j: int, k: int|
        0 <= i < n && 0 <= j < n && 0 <= k < n && #[trigger] before(i, j) && #[trigger] before(j, k) implies before(
        i,
        k,
    ) by {
        let x = hits[group[i] as int].path@;
        let y = hits[group[j] as int].path@;
        let z = hits[group[k] as int].path@;
        text::lemma_precedes_order(x, y, z);
    }
}

/// Sums up a group whose least and greatest similarity are known.
fn build_cluster<V>(
    chunks: &[(Hit, V)],
    group: &Vec<usize>,
    bounds: (Score, Score),
    Ghost(ls): Ghost<Seq<Link>>,
) -> (c: DupCluster)
    requires
        forall|p: int| 0 <= p < group@.len() ==> #[trigger] group@[p] < chunks@.len(),
        is_least(ls, group@, bounds.0),
        is_greatest(ls, group@, bounds.1),
    ensures
        is_cluster_of(hits_of(chunks@), ls, group@, c),
        c.max_sim == bounds.1,
{
    let ghost hits = hits_of(chunks@);
    let ghost rel = member_before(hits, group@);
    let before = |p: usize, q: usize| -> (r: bool)
        requires
            p < group@.len(),
            q < group@.len(),
            forall|p: int| 0 <= p < group@.len() ==> #[trigger] group@[p] < chunks@.len(),
        ensures
            r == member_before(hits_of(chunks@), group@)(p as int, q as int),
        {
            let x = &chunks[group[p]].0;
            let y = &chunks[group[q]].0;
            proof {
                text::lemma_precedes_order(x.path@, y.path@, x.path@);
            }
            if text::is_before(x.path.as_str(), y.path.as_str()) {
                true
            } else if text::same(x.path.as_str(), y.path.as_str()) {
                x.start_line < y.start_line || (x.start_line == y.start_line && p < q)
            } else {
                false
            }
        };
    proof {
        lemma_member_order(hits, group@);
    }
    let order = ranking::rank(group.len(), &before, Ghost(rel));
    let mut members: Vec<DupMember> = Vec::new();
    let mut k: usize = 0;
    while k < group.len()
        invariant
            k <= group@.len() == order@.len(),
            hits == hits_of(chunks@),
            forall|p: int| 0 <= p < group@.len() ==> #[trigger] group@[p] < chunks@.len(),
            forall|p: int| 0 <= p < order@.len() ==> #[trigger] order@[p] < group@.len(),
            members@ =~= Seq::new(k as nat, |m: int| row_of(hits[group@[order@[m] as int] as int])),
        decreases group@.len() - k,
    {
        let h = &chunks[group[order[k]]].0;
        members.push(
            DupMember {
                path: h.path.clone(),
                start_line: h.start_line,
                end_line: h.end_line,
                symbol: copy_text(&h.symbol),
            },
        );
        k += 1;
    }
    assert(are_rows(hits, group@, members@)) by {
        assert(ranking::is_ranking(order@, group@.len() as int, rel));
    }
    DupCluster { size: group.len(), members, min_sim: bounds.0, max_sim: bounds.1 }
}

/// The places of the groups with at least `min_size` members.
fn keep_large(groups: &Vec<Vec<usize>>, min_size: usize) -> (kept: Vec<usize>)
    ensures
        forall|k: int| 0 <= k < kept@.len() ==> #[trigger] kept@[k] < groups@.len(),
        large(group_views(groups@), min_size as int) == Seq::new(
            kept@.len(),
            |k: int| group_views(groups@)[kept@[k] as int],
        ),
{
    let ghost all = group_views(groups@);
    let mut kept: Vec<usize> = Vec::new();
    let mut i: usize = 0;
    proof {
        reveal(Seq::filter);
        assert(large(all.take(0), min_size as int) =~= Seq::<Seq<usize>>::empty());
    }
    while i < groups.len()
        invariant
            i <= groups@.len(),
            all == group_views(groups@),
            forall|k: int| 0 <= k < kept@.len() ==> #[trigger] kept@[k] < groups@.len(),
            large(all.take(i as int), min_size as int) =~= Seq::new(kept@.len(), |k: int| all[kept@[k] as int]),
        decreases groups@.len() - i,
    {
        proof {
            reveal(Seq::filter);
            assert(all.take(i + 1).drop_last() =~= all.take(i as int));
            assert(all.take(i + 1).last() == groups@[i as int]@);
        }
        if groups[i].len() >= min_size {
            kept.push(i);
        }
        i += 1;
    }
    assert(all.take(i as int) =~= all);
    kept
}

/// Clusters near-duplicate chunks from the nearest neighbours of each chunk.
///
/// `neighbours[i]` lists the neighbours of `chunks[i]`. A neighbour whose score is not below
/// `min_score` links the two chunks; chunks that links connect form a cluster. Chunks that opted
/// out take no part, and with `seed_paths` only the neighbour lists of chunks of those paths count.
/// The clusters with at least `min_cluster_size` members come back largest first, at most
/// `max_clusters` of them.
pub fn cluster_duplicates<V>(
    chunks: &[(Hit, V)],
    neighbours: &[Vec<Hit>],
    min_score: Score,
    min_cluster_size: usize,
    max_clusters: usize,
    seed_paths: Option<&Vec<String>>,
) -> (r: Vec<DupCluster>)
    requires
        neighbours@.len() <= chunks@.len(),
    ensures
        are_clusters(
            hits_of(chunks@),
            links_among(hits_of(chunks@), neighbours@, min_score, seed_paths),
            min_cluster_size as int,
            max_clusters as int,
            r@,
        ),
{
    let ghost hits = hits_of(chunks@);
    let ghost ls = links_among(hits, neighbours@, min_score, seed_paths);
    let ghost n = chunks@.len() as int;
    let found = scan(chunks, neighbours, min_score, seed_paths);
    let edges = found.edges;
    let mut uf = found.uf;
    let ghost reps = uf@;
    let groups = gather(&mut uf, chunks.len());
    let ghost all = group_views(groups@);
    proof {
        lemma_components(ls, reps, all);
    }
    let kept = keep_large(&groups, min_cluster_size);
    let ghost big = large(all, min_cluster_size as int);
    proof {
        assert forall|g: int, p: int| 0 <= g < all.len() && 0 <= p < all[g].len() implies #[trigger] all[g][p]
            < n by {}
    }
    let mut bounds: Vec<(Score, Score)> = Vec::new();
    let mut k: usize = 0;
    while k < kept.len()
        invariant
            k <= kept@.len(),
            n == hits.len(),
            edges_hold(edges@, ls, n),
            are_components(ls, n, all),
            links::proper(ls, n),
            all == group_views(groups@),
            big == Seq::new(kept@.len(), |k: int| all[kept@[k] as int]),
            forall|m: int| 0 <= m < kept@.len() ==> #[trigger] kept@[m] < groups@.len(),
            bounds@.len() == k,
            forall|m: int|
                0 <= m < k ==> is_least(ls, big[m], (#[trigger] bounds@[m]).0) && is_greatest(
                    ls,
                    big[m],
                    bounds@[m].1,
                ),
        decreases kept@.len() - k,
    {
        let group = &groups[kept[k]];
        proof {
            let g = kept@[k as int] as int;
            assert(all[g] == group@);
            assert forall|p: int| 0 <= p < group@.len() implies #[trigger] group@[p] < n by {
                assert(all[g][p] < n);
            }
            assert forall|a: usize, b: usize|
                group@.contains(a) && a < b < n && #[trigger] links::best(ls, a as int, b as int) is Some implies group@.contains(
            b) by {
                links::lemma_best_adjacent(ls, n, a as int, b as int);
                links::lemma_connected_adjacent(ls, a as int, b as int);
                lemma_component_closed(ls, n, all, g, a, b);
            }
        }
        let pair = bounds_of(&edges, group, Ghost(ls), Ghost(n));
        bounds.push(pair);
        k += 1;
    }
    let ghost highs = Seq::new(bounds@.len(), |m: int| bounds@[m].1);
    let ghost rel = cluster_before(big, highs);
    let before = |p: usize, q: usize| -> (r: bool)
        requires
            p < kept@.len(),
            q < kept@.len(),
            bounds@.len() == kept@.len(),
            forall|m: int| 0 <= m < kept@.len() ==> #[trigger] kept@[m] < groups@.len(),
        ensures
            r == cluster_before(
                Seq::new(kept@.len(), |k: int| group_views(groups@)[kept@[k] as int]),
                Seq::new(bounds@.len(), |m: int| bounds@[m].1),
            )(p as int, q as int),
        {
            let x: usize = groups[kept[p]].len();
            let y: usize = groups[kept[q]].len();
            let s = bounds[p].1;
            let t = bounds[q].1;
            x > y || (x == y && (t.is_totally_below(&s) || (!s.is_totally_below(&t) && p < q)))
        };
    assert(ranking::strict_order(kept@.len() as int, rel));
    let order = ranking::rank(kept.len(), &before, Ghost(rel));
    let count: usize = if max_clusters < kept.len() {
        max_clusters
    } else {
        kept.len()
    };
    let mut out: Vec<DupCluster> = Vec::new();
    let mut k: usize = 0;
    while k < count
        invariant
            k <= count <= kept@.len(),
            kept@.len() == order@.len() == bounds@.len(),
            hits == hits_of(chunks@),
            n == chunks@.len(),
            are_components(ls, n, all),
            all == group_views(groups@),
            big == Seq::new(kept@.len(), |k: int| all[kept@[k] as int]),
            forall|m: int| 0 <= m < kept@.len() ==> #[trigger] kept@[m] < groups@.len(),
            forall|m: int| 0 <= m < order@.len() ==> #[trigger] order@[m] < kept@.len(),
            forall|m: int|
                0 <= m < bounds@.len() ==> is_least(ls, big[m], (#[trigger] bounds@[m]).0) && is_greatest(
                    ls,
                    big[m],
                    bounds@[m].1,
                ),
            out@.len() == k,
            forall|m: int|
                0 <= m < k ==> is_cluster_of(hits, ls, big[order@[m] as int], #[trigger] out@[m]) && out@[m].max_sim
                    == bounds@[order@[m] as int].1,
        decreases count - k,
    {
        let place: usize = order[k];
        let group = &groups[kept[place]];
        proof {
            let g = kept@[place as int] as int;
            assert(all[g] == group@);
            assert(big[place as int] == group@);
            assert forall|p: int| 0 <= p < group@.len() implies #[trigger] group@[p] < chunks@.len() by {
                assert(all[g][p] < n);
            }
            assert(is_least(ls, big[place as int], bounds@[place as int].0));
        }
        let c = build_cluster(chunks, group, bounds[place], Ghost(ls));
        out.push(c);
        k += 1;
    }
    proof {
        assert(are_listed(hits, ls, big, highs, order@, max_clusters as int, out@));
    }
    out
}

/// What holds of each link that a scan finds: it joins two different chunks of the list, the smaller
/// place first, neither of which opted out, one of which may seed, and its score is not below the
/// least one.
pub open spec fn sound_link(hits: Seq<Hit>, min_score: Score, seeds: Option<&Vec<String>>, l: Link) -> bool {
    &&& 0 <= l.a < l.b < hits.len()
    &&& !hits[l.a].no_duplicate
    &&& !hits[l.b].no_duplicate
    &&& seeds_at(hits, l.a, seeds) || seeds_at(hits, l.b, seeds)
    &&& !l.sim.below(min_score)
}

proof fn lemma_links_from_sound(
    hits: Seq<Hit>,
    i: int,
    nbrs: Seq<Hit>,
    min_score: Score,
    seeds: Option<&Vec<String>>,
    k: int,
)
    requires
        0 <= i < hits.len(),
        seeds_at(hits, i, seeds),
        0 <= k < links_from(hits, i, nbrs, min_score).len(),
    ensures
        sound_link(hits, min_score, seeds, links_from(hits, i, nbrs, min_score)[k]),
    decreases nbrs.len(),
{
    let front = links_from(hits, i, nbrs.drop_last(), min_score);
    lemma_locate_in_range(hits, nbrs.last().id);
    if k < front.len() {
        lemma_links_from_sound(hits, i, nbrs.drop_last(), min_score, seeds, k);
    }
}

/// Every link that a scan finds is sound.
pub proof fn law_links_sound(
    hits: Seq<Hit>,
    neighbours: Seq<Vec<Hit>>,
    min_score: Score,
    seeds: Option<&Vec<String>>,
    k: int,
)
    requires
        neighbours.len() <= hits.len(),
        0 <= k < links_among(hits, neighbours, min_score, seeds).len(),
    ensures
        sound_link(hits, min_score, seeds, links_among(hits, neighbours, min_score, seeds)[k]),
    decreases neighbours.len(),
{
    let front = links_among(hits, neighbours.drop_last(), min_score, seeds);
    let i = neighbours.len() - 1;
    if k < front.len() {
        law_links_sound(hits, neighbours.drop_last(), min_score, seeds, k);
    } else {
        lemma_links_from_sound(hits, i, neighbours.last()@, min_score, seeds, k - front.len());
    }
}

pub(crate) proof fn lemma_first_step(
    hits: Seq<Hit>,
    neighbours: Seq<Vec<Hit>>,
    min_score: Score,
    seeds: Option<&Vec<String>>,
    x: int,
    y: int,
) -> (z: int)
    requires
        neighbours.len() <= hits.len(),
        links::connected(links_among(hits, neighbours, min_score, seeds), x, y),
        x != y,
    ensures
        links::adjacent(links_among(hits, neighbours, min_score, seeds), x, z),
        0 <= x < hits.len(),
        !hits[x].no_duplicate,
        seeds_at(hits, x, seeds) || seeds_at(hits, z, seeds),
{
    let ls = links_among(hits, neighbours, min_score, seeds);
    let p = choose|p: Seq<int>| links::leads(ls, p, x, y);
    assert(links::step_at(ls, p, 0));
    let k = choose|k: int|
        0 <= k < ls.len() && ((#[trigger] ls[k]).a == p[0] && ls[k].b == p[1] || ls[k].a == p[1] && ls[k].b
            == p[0]);
    law_links_sound(hits, neighbours, min_score, seeds, k);
    p[1]
}

/// A chunk that opted out is connected with nothing but itself, so it is in no cluster of two or
/// more.
pub proof fn law_opted_out_alone(
    hits: Seq<Hit>,
    neighbours: Seq<Vec<Hit>>,
    min_score: Score,
    seeds: Option<&Vec<String>>,
    x: int,
    y: int,
)
    requires
        neighbours.len() <= hits.len(),
        0 <= x < hits.len(),
        hits[x].no_duplicate,
        links::connected(links_among(hits, neighbours, min_score, seeds), x, y),
    ensures
        x == y,
{
    if x != y {
        let z = lemma_first_step(hits, neighbours, min_score, seeds, x, y);
    }
}

/// Where two different chunks are connected, a chunk that may seed is connected with both: no
/// cluster of two or more holds untouched chunks alone.
pub proof fn law_clusters_hold_a_seed(
    hits: Seq<Hit>,
    neighbours: Seq<Vec<Hit>>,
    min_score: Score,
    seeds: Option<&Vec<String>>,
    x: int,
    y: int,
)
    requires
        neighbours.len() <= hits.len(),
        links::connected(links_among(hits, neighbours, min_score, seeds), x, y),
        x != y,
    ensures
        exists|z: int|
            #[trigger] seeds_at(hits, z, seeds) && links::connected(
                links_among(hits, neighbours, min_score, seeds),
                x,
                z,
            ),
{
    let ls = links_among(hits, neighbours, min_score, seeds);
    let z = lemma_first_step(hits, neighbours, min_score, seeds, x, y);
    links::lemma_connected_self(ls, x);
    links::lemma_connected_adjacent(ls, x, z);
    if seeds_at(hits, x, seeds) {
    } else {
        assert(seeds_at(hits, z, seeds));
    }
}

/// Clusters come largest first, ties by greatest similarity; each has at least the least size, and
/// there are at most as many as asked for.
pub proof fn law_clusters_ordered(
    hits: Seq<Hit>,
    ls: Seq<Link>,
    min_size: int,
    max_clusters: int,
    r: Seq<DupCluster>,
)
    requires
        are_clusters(hits, ls, min_size, max_clusters, r),
        max_clusters >= 0,
    ensures
        r.len() <= max_clusters,
        forall|k: int| 0 <= k < r.len() ==> (#[trigger] r[k]).size >= min_size && r[k].members@.len() == r[k].size,
        forall|p: int, q: int|
            0 <= p < q < r.len() ==> (#[trigger] r[p]).size > (#[trigger] r[q]).size || (r[p].size == r[q].size
                && r[p].max_sim.total_rank() >= r[q].max_sim.total_rank()),
{
    let (groups, highs, order) = choose|groups: Seq<Seq<usize>>, highs: Seq<Score>, order: Seq<usize>|
        #[trigger] are_components(ls, hits.len() as int, groups) && #[trigger] are_listed(
            hits,
            ls,
            large(groups, min_size),
            highs,
            order,
            max_clusters,
            r,
        );
    let big = large(groups, min_size);
    assert forall|k: int| 0 <= k < r.len() implies (#[trigger] r[k]).size >= min_size && r[k].members@.len()
        == r[k].size by {
        let g = order[k] as int;
        assert(0 <= order[k] < highs.len());
        groups.lemma_filter_pred(|g: Seq<usize>| g.len() >= min_size, g);
        assert(is_cluster_of(hits, ls, big[g], r[k]));
    }
    assert forall|p: int, q: int| 0 <= p < q < r.len() implies (#[trigger] r[p]).size > (#[trigger] r[q]).size || (
    r[p].size == r[q].size && r[p].max_sim.total_rank() >= r[q].max_sim.total_rank()) by {
        assert(cluster_before(big, highs)(order[p] as int, order[q] as int));
        assert(is_cluster_of(hits, ls, big[order[p] as int], r[p]));
        assert(is_cluster_of(hits, ls, big[order[q] as int], r[q]));
    }
}

/// A cluster reaches no two components: chunks that nothing connects share no group, and chunks
/// that links connect share one.
pub proof fn law_one_component_each(ls: Seq<Link>, n: int, groups: Seq<Seq<usize>>, g: int, a: usize, b: usize)
    requires
        are_components(ls, n, groups),
        0 <= g < groups.len(),
        groups[g].contains(a),
        b < n,
    ensures
        groups[g].contains(b) <==> links::connected(ls, a as int, b as int),
{
    if links::connected(ls, a as int, b as int) {
        lemma_component_closed(ls, n, groups, g, a, b);
    }
    if groups[g].contains(b) {
        let p = choose|p: int| 0 <= p < groups[g].len() && groups[g][p] == a;
        let q = choose|q: int| 0 <= q < groups[g].len() && groups[g][q] == b;
        let first = groups[g][0] as int;
        assert(links::connected(ls, first, groups[g][p] as int));
        assert(links::connected(ls, first, groups[g][q] as int));
        links::lemma_connected_symmetric(ls, first, a as int);
        links::lemma_connected_transitive(ls, a as int, first, b as int);
    }
}

} // verus!
