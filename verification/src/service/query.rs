//! The similarity searches: the neighbours of a snippet or of a stored chunk, and the scan for
//! near-duplicates.

use crate::domain::{DupCluster, Hit, SimilarTarget};
use crate::lists;
use crate::score::Score;
use crate::search;
use crate::text;
use vstd::prelude::*;

verus! {

/// A nearest-neighbour search that the store is to make.
pub struct Nearest<V> {
    pub vector: V,
    pub limit: u64,
    /// The chunk to leave out.
    pub exclude_id: Option<u64>,
}

/// No chunk is stored at a location.
#[derive(Debug)]
pub struct NoChunk {
    pub path: String,
    pub line: usize,
}

impl NoChunk {
    /// What to tell the user.
    pub fn message(&self) -> (r: String)
        ensures
            r@ == "no indexed chunk at "@ + self.path@ + ":"@ + text::decimal(self.line as nat),
    {
        "no indexed chunk at ".to_string().concat(self.path.as_str()).concat(":").concat(
            text::decimal_of(self.line as u64).as_str(),
        )
    }
}

/// What a similarity search needs of the store first.
pub enum Lookup {
    /// The vector of this snippet, embedded as a passage.
    Embed(String),
    /// The chunk at this location, with its vector.
    Locate { path: String, line: usize },
}

/// What the store has for a lookup.
pub enum Found<V> {
    Vector(V),
    Chunk(Option<(Hit, V)>),
}

/// A search for what is similar to a snippet or a stored chunk.
pub struct SimilarSearch {
    pub target: SimilarTarget,
    pub limit: u64,
    pub min_score: Score,
}

impl SimilarSearch {
    /// What is needed of the store first.
    pub fn lookup(&self) -> (r: Lookup)
        ensures
            match self.target {
                SimilarTarget::Code(code) => r == Lookup::Embed(code),
                SimilarTarget::Location { path, line } => r == (Lookup::Locate { path, line }),
            },
    {
        match &self.target {
            SimilarTarget::Code(code) => Lookup::Embed(code.clone()),
            SimilarTarget::Location { path, line } => Lookup::Locate { path: path.clone(), line: *line },
        }
    }

    /// The search to make with what was found. A stored chunk is left out of its own neighbours;
    /// where none is stored at the location there is nothing to search for.
    pub fn nearest<V>(&self, found: Found<V>) -> (r: Result<Nearest<V>, NoChunk>)
        ensures
            match found {
                Found::Vector(v) => r matches Ok(n) && n.vector == v && n.limit == self.limit && n.exclude_id is None,
                Found::Chunk(Some((hit, v))) => r matches Ok(n) && n.vector == v && n.limit == self.limit
                    && n.exclude_id == Some(hit.id),
                Found::Chunk(None) => {
                    &&& r matches Err(e)
                    &&& match self.target {
                        SimilarTarget::Location { path, line } => e.path@ == path@ && e.line == line,
                        SimilarTarget::Code(_) => e.path@ == ""@ && e.line == 0,
                    }
                },
            },
    {
        match found {
            Found::Vector(vector) => Ok(Nearest { vector, limit: self.limit, exclude_id: None }),
            Found::Chunk(Some((hit, vector))) => Ok(
                Nearest { vector, limit: self.limit, exclude_id: Some(hit.id) },
            ),
            Found::Chunk(None) => match &self.target {
                SimilarTarget::Location { path, line } => Err(NoChunk { path: path.clone(), line: *line }),
                SimilarTarget::Code(_) => Err(NoChunk { path: "".to_string(), line: 0 }),
            },
        }
    }

    /// The answer: the neighbours that reach the least score, in their order.
    pub fn answer(&self, hits: Vec<Hit>) -> (r: Vec<Hit>)
        ensures
            r@ == lists::reaching(hits@, self.min_score),
    {
        lists::keep_reaching(hits, self.min_score)
    }
}

/// What decides which near-duplicates are reported.
#[derive(Clone, Copy, Debug)]
pub struct DuplicateKnobs {
    pub min_score: Score,
    pub min_cluster_size: usize,
    pub top_k: u64,
    pub max_clusters: usize,
}

/// A neighbour search that a scan needs.
pub struct Wanted<'a, V> {
    pub vector: &'a V,
    pub limit: u64,
    pub exclude_id: u64,
}

/// A scan for near-duplicates: the neighbours of every chunk that may seed are asked for in turn.
pub struct DuplicateScan<V> {
    pub chunks: Vec<(Hit, V)>,
    pub seeds: Option<Vec<String>>,
    pub knobs: DuplicateKnobs,
    pub neighbours: Vec<Vec<Hit>>,
}

/// Whether the scan asks for the neighbours of a chunk of this path.
pub open spec fn asks(seeds: Option<Vec<String>>, path: Seq<char>) -> bool {
    match seeds {
        None => true,
        Some(list) => text::views(list@).contains(path),
    }
}

/// The seeds as a borrowed list.
pub open spec fn seeds_of(seeds: &Option<Vec<String>>) -> Option<&Vec<String>> {
    match seeds {
        None => None,
        Some(list) => Some(list),
    }
}

/// Whether `r` is a scan of these chunks at its beginning: only chunks that are not asked for are
/// behind it.
pub open spec fn begins<V>(
    chunks: Vec<(Hit, V)>,
    seeds: Option<Vec<String>>,
    knobs: DuplicateKnobs,
    r: DuplicateScan<V>,
) -> bool {
    &&& r.chunks == chunks
    &&& r.seeds == seeds
    &&& r.knobs == knobs
    &&& forall|k: int| 0 <= k < r.neighbours@.len() ==> !asks(seeds, (#[trigger] chunks@[k]).0.path@)
}

/// Whether `b` is the scan `a` after it took in the neighbours that were wanted: they are put down for
/// the chunk that was asked for, and only chunks that are not asked for are passed over.
pub open spec fn took<V>(a: DuplicateScan<V>, hits: Vec<Hit>, b: DuplicateScan<V>) -> bool {
    &&& b.chunks == a.chunks
    &&& b.seeds == a.seeds
    &&& b.knobs == a.knobs
    &&& a.neighbours@.len() < b.neighbours@.len()
    &&& b.neighbours@.take((a.neighbours@.len() + 1) as int) == a.neighbours@.push(hits)
    &&& forall|k: int|
        a.neighbours@.len() < k < b.neighbours@.len() ==> !asks(a.seeds, (#[trigger] a.chunks@[k]).0.path@)
}

impl<V> DuplicateScan<V> {
    /// The invariant: neighbours are known for a beginning of the chunks, none for those that were
    /// not asked for, and the next chunk is one to ask for.
    pub open spec fn valid(&self) -> bool {
        &&& self.neighbours@.len() <= self.chunks@.len()
        &&& forall|k: int|
            0 <= k < self.neighbours@.len() && !asks(self.seeds, self.chunks@[k].0.path@) ==> (
            #[trigger] self.neighbours@[k])@.len() == 0
        &&& self.neighbours@.len() < self.chunks@.len() ==> asks(
            self.seeds,
            self.chunks@[self.neighbours@.len() as int].0.path@,
        )
    }

    /// A scan of these chunks. With `seeds`, only chunks of those paths are asked for.
    pub fn new(chunks: Vec<(Hit, V)>, seeds: Option<Vec<String>>, knobs: DuplicateKnobs) -> (r: DuplicateScan<V>)
        ensures
            r.valid(),
            begins(chunks, seeds, knobs, r),
    {
        let mut scan = DuplicateScan { chunks, seeds, knobs, neighbours: Vec::new() };
        scan.skip();
        scan
    }

    /// Passes over chunks that are not asked for.
    fn skip(&mut self)
        requires
            old(self).neighbours@.len() <= old(self).chunks@.len(),
            forall|k: int|
                0 <= k < old(self).neighbours@.len() && !asks(old(self).seeds, old(self).chunks@[k].0.path@) ==> (
                #[trigger] old(self).neighbours@[k])@.len() == 0,
        ensures
            final(self).valid(),
            final(self).chunks == old(self).chunks,
            final(self).seeds == old(self).seeds,
            final(self).knobs == old(self).knobs,
            old(self).neighbours@.len() <= final(self).neighbours@.len(),
            final(self).neighbours@.take(old(self).neighbours@.len() as int) == old(self).neighbours@,
            forall|k: int|
                old(self).neighbours@.len() <= k < final(self).neighbours@.len() ==> !asks(
                    old(self).seeds,
                    (#[trigger] old(self).chunks@[k]).0.path@,
                ),
    {
        let ghost start = self.neighbours@.len() as int;
        let ghost first = self.neighbours@;
        assert(first.take(start) =~= first);
        while self.neighbours.len() < self.chunks.len()
            invariant
                self.neighbours@.len() <= self.chunks@.len(),
                self.chunks == old(self).chunks,
                self.seeds == old(self).seeds,
                self.knobs == old(self).knobs,
                0 <= start <= self.neighbours@.len(),
                self.neighbours@.take(start) == first,
                start == old(self).neighbours@.len(),
                first == old(self).neighbours@,
                forall|k: int|
                    0 <= k < self.neighbours@.len() && !asks(self.seeds, self.chunks@[k].0.path@) ==> (
                    #[trigger] self.neighbours@[k])@.len() == 0,
                forall|k: int|
                    start <= k < self.neighbours@.len() ==> !asks(self.seeds, (#[trigger] self.chunks@[k]).0.path@),
            decreases self.chunks@.len() - self.neighbours@.len(),
        {
            let path = self.chunks[self.neighbours.len()].0.path.as_str();
            let wanted = match &self.seeds {
                None => true,
                Some(list) => text::one_of(path, list),
            };
            if wanted {
                return ;
            }
            let ghost before = self.neighbours@;
            self.neighbours.push(Vec::new());
            assert(self.neighbours@.take(start) =~= before.take(start));
        }
    }

    /// The neighbour search that is needed next, or none where all are known.
    pub fn wanted(&self) -> (r: Option<Wanted<'_, V>>)
        requires
            self.valid(),
        ensures
            match r {
                Some(w) => {
                    let k = self.neighbours@.len() as int;
                    &&& k < self.chunks@.len()
                    &&& *w.vector == self.chunks@[k].1
                    &&& w.limit == self.knobs.top_k
                    &&& w.exclude_id == self.chunks@[k].0.id
                    &&& asks(self.seeds, self.chunks@[k].0.path@)
                },
                None => self.neighbours@.len() == self.chunks@.len(),
            },
    {
        if self.neighbours.len() < self.chunks.len() {
            let c = &self.chunks[self.neighbours.len()];
            Some(Wanted { vector: &c.1, limit: self.knobs.top_k, exclude_id: c.0.id })
        } else {
            None
        }
    }

    /// Takes in the neighbours that were wanted.
    pub fn take(&mut self, hits: Vec<Hit>)
        requires
            old(self).valid(),
            old(self).neighbours@.len() < old(self).chunks@.len(),
        ensures
            final(self).valid(),
            took(*old(self), hits, *final(self)),
    {
        self.neighbours.push(hits);
        self.skip();
    }

    /// The clusters among the chunks, once all that was wanted is known. No cluster is smaller than
    /// one.
    pub fn finish(self) -> (r: Vec<DupCluster>)
        requires
            self.valid(),
            self.neighbours@.len() == self.chunks@.len(),
        ensures
            search::are_clusters(
                search::hits_of(self.chunks@),
                search::links_among(
                    search::hits_of(self.chunks@),
                    self.neighbours@,
                    self.knobs.min_score,
                    seeds_of(&self.seeds),
                ),
                if self.knobs.min_cluster_size == 0 {
                    1
                } else {
                    self.knobs.min_cluster_size as int
                },
                self.knobs.max_clusters as int,
                r@,
            ),
    {
        let size: usize = if self.knobs.min_cluster_size == 0 {
            1
        } else {
            self.knobs.min_cluster_size
        };
        let seeds = match &self.seeds {
            None => None,
            Some(list) => Some(list),
        };
        search::cluster_duplicates(
            self.chunks.as_slice(),
            self.neighbours.as_slice(),
            self.knobs.min_score,
            size,
            self.knobs.max_clusters,
            seeds,
        )
    }
}

/// Not asking for the neighbours of a chunk that may not seed loses nothing: the links are the same
/// whatever those neighbours would have been.
pub proof fn law_unasked_neighbours_do_not_matter(
    hits: Seq<Hit>,
    a: Seq<Vec<Hit>>,
    b: Seq<Vec<Hit>>,
    min_score: Score,
    seeds: Option<&Vec<String>>,
)
    requires
        a.len() == b.len() <= hits.len(),
        forall|k: int| 0 <= k < a.len() && search::seeded(seeds, hits[k].path@) ==> #[trigger] a[k] == b[k],
    ensures
        search::links_among(hits, a, min_score, seeds) == search::links_among(hits, b, min_score, seeds),
    decreases a.len(),
{
    if a.len() > 0 {
        let x = a.drop_last();
        let y = b.drop_last();
        assert forall|k: int| 0 <= k < x.len() && search::seeded(seeds, hits[k].path@) implies #[trigger] x[k]
            == y[k] by {
            assert(a[k] == b[k]);
        }
        law_unasked_neighbours_do_not_matter(hits, x, y, min_score, seeds);
        let i = a.len() - 1;
        if search::seeds_at(hits, i, seeds) {
            assert(a[i] == b[i]);
        }
    }
}

/// Whether `scans` is a scan from its beginning on, each state taking in the next answer.
pub open spec fn is_scan<V>(
    chunks: Vec<(Hit, V)>,
    seeds: Option<Vec<String>>,
    knobs: DuplicateKnobs,
    scans: Seq<DuplicateScan<V>>,
    answers: Seq<Vec<Hit>>,
) -> bool {
    &&& scans.len() == answers.len() + 1
    &&& begins(chunks, seeds, knobs, scans[0])
    &&& forall|i: int| 0 <= i < scans.len() ==> (#[trigger] scans[i]).valid()
    &&& forall|i: int|
        0 <= i < answers.len() ==> scans[i].neighbours@.len() < chunks@.len() && #[trigger] took(
            scans[i],
            answers[i],
            scans[i + 1],
        )
}

/// The place of the chunk that the `i`-th question of a scan is about.
pub open spec fn place_asked<V>(scans: Seq<DuplicateScan<V>>, i: int) -> int {
    scans[i].neighbours@.len() as int
}

proof fn lemma_scan<V>(
    chunks: Vec<(Hit, V)>,
    seeds: Option<Vec<String>>,
    knobs: DuplicateKnobs,
    scans: Seq<DuplicateScan<V>>,
    answers: Seq<Vec<Hit>>,
    n: int,
)
    requires
        is_scan(chunks, seeds, knobs, scans, answers),
        0 <= n <= answers.len(),
    ensures
        scans[n].chunks == chunks,
        scans[n].seeds == seeds,
        scans[n].knobs == knobs,
        forall|i: int|
            0 <= i < n ==> {
                &&& #[trigger] place_asked(scans, i) < place_asked(scans, n)
                &&& asks(seeds, chunks@[place_asked(scans, i)].0.path@)
                &&& scans[n].neighbours@[place_asked(scans, i)] == answers[i]
            },
        forall|k: int|
            0 <= k < scans[n].neighbours@.len() && asks(seeds, (#[trigger] chunks@[k]).0.path@) ==> exists|i: int|
                0 <= i < n && #[trigger] place_asked(scans, i) == k,
    decreases n,
{
    if n > 0 {
        lemma_scan(chunks, seeds, knobs, scans, answers, n - 1);
        let a = scans[n - 1];
        let b = scans[n];
        assert(took(scans[n - 1], answers[n - 1], scans[n - 1 + 1]));
        assert(a.valid());
        let at = place_asked(scans, n - 1);
        assert forall|k: int| 0 <= k <= at implies #[trigger] b.neighbours@[k] == a.neighbours@.push(
            answers[n - 1],
        )[k] by {
            assert(b.neighbours@.take(at + 1)[k] == b.neighbours@[k]);
        }
        assert forall|i: int| 0 <= i < n implies {
            &&& #[trigger] place_asked(scans, i) < place_asked(scans, n)
            &&& asks(seeds, chunks@[place_asked(scans, i)].0.path@)
            &&& scans[n].neighbours@[place_asked(scans, i)] == answers[i]
        } by {
            if i < n - 1 {
                assert(place_asked(scans, i) < place_asked(scans, n - 1));
                assert(b.neighbours@[place_asked(scans, i)] == a.neighbours@[place_asked(scans, i)]);
            } else {
                assert(b.neighbours@[at] == answers[n - 1]);
            }
        }
        assert forall|k: int|
            0 <= k < b.neighbours@.len() && asks(seeds, (#[trigger] chunks@[k]).0.path@) implies exists|i: int|
            0 <= i < n && #[trigger] place_asked(scans, i) == k by {
            if k < at {
                let i = choose|i: int| 0 <= i < n - 1 && #[trigger] place_asked(scans, i) == k;
                assert(place_asked(scans, i) == k);
            } else if k == at {
                assert(place_asked(scans, n - 1) == k);
            } else {
                assert(!asks(a.seeds, a.chunks@[k].0.path@));
            }
        }
    }
}

/// A whole scan asks for the neighbours of each chunk that may be asked for once, in the order of the
/// chunks, and of no other. In the end each answer stands at its chunk, and the other chunks have no
/// neighbours: these are the lists that the clusters are made of.
pub proof fn law_scan_asks_each_seed_once<V>(
    chunks: Vec<(Hit, V)>,
    seeds: Option<Vec<String>>,
    knobs: DuplicateKnobs,
    scans: Seq<DuplicateScan<V>>,
    answers: Seq<Vec<Hit>>,
)
    requires
        is_scan(chunks, seeds, knobs, scans, answers),
        scans.last().neighbours@.len() == chunks@.len(),
    ensures
        scans.last().chunks == chunks,
        scans.last().seeds == seeds,
        scans.last().knobs == knobs,
        forall|i: int, j: int|
            0 <= i < j < answers.len() ==> #[trigger] place_asked(scans, i) < #[trigger] place_asked(scans, j),
        forall|i: int|
            0 <= i < answers.len() ==> {
                &&& 0 <= #[trigger] place_asked(scans, i) < chunks@.len()
                &&& asks(seeds, chunks@[place_asked(scans, i)].0.path@)
                &&& scans.last().neighbours@[place_asked(scans, i)] == answers[i]
            },
        forall|k: int|
            0 <= k < chunks@.len() && asks(seeds, (#[trigger] chunks@[k]).0.path@) ==> exists|i: int|
                0 <= i < answers.len() && #[trigger] place_asked(scans, i) == k,
        forall|k: int|
            0 <= k < chunks@.len() && !asks(seeds, chunks@[k].0.path@) ==> (
            #[trigger] scans.last().neighbours@[k])@.len() == 0,
{
    let n = answers.len() as int;
    lemma_scan(chunks, seeds, knobs, scans, answers, n);
    assert(scans[n].valid());
    assert forall|i: int, j: int| 0 <= i < j < answers.len() implies #[trigger] place_asked(scans, i)
        < #[trigger] place_asked(scans, j) by {
        lemma_scan(chunks, seeds, knobs, scans, answers, j);
    }
}

/// The neighbours of a chunk are asked for exactly if no seeds were given or its path is one of them.
pub proof fn law_asked_paths(seeds: Option<Vec<String>>, path: Seq<char>)
    ensures
        asks(seeds, path) <==> (seeds is Some ==> exists|s: int|
            0 <= s < seeds->0@.len() && (#[trigger] seeds->0@[s])@ == path),
{
    if let Some(list) = seeds {
        let all = text::views(list@);
        if all.contains(path) {
            let s = choose|s: int| 0 <= s < all.len() && all[s] == path;
            assert(list@[s]@ == path);
        }
        if exists|s: int| 0 <= s < list@.len() && (#[trigger] list@[s])@ == path {
            let s = choose|s: int| 0 <= s < list@.len() && (#[trigger] list@[s])@ == path;
            assert(all[s] == path);
        }
    }
}

} // verus!
