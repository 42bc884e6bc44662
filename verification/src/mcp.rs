//! The tools of the MCP server: what their arguments mean, what is refused, and what they return.

use crate::domain::{Hit, Plan, RefreshReport, ReindexOutcome, SimilarTarget};
use crate::git;
use crate::git::{changed_files, ChangedFiles};
use crate::globs;
use crate::lists;
use crate::score::Score;
use crate::service::query::DuplicateKnobs;
use crate::text;
use crate::vectordbs;
use crate::vectordbs::{compile_path_glob, passes, PathFilter};
use vstd::prelude::*;

verus! {

/// The most rows or neighbours a caller may ask for.
pub const MAX_LIMIT: u64 = 50;

/// The rows returned where the caller does not say how many.
pub const DEFAULT_LIMIT: u64 = 8;

/// The most lines of a snippet.
pub const SNIPPET_LINES: usize = 8;

/// The most bytes of a snippet.
pub const SNIPPET_BYTES: u128 = 800;

/// The clusters returned where the caller does not say how many.
pub const DEFAULT_DUP_MAX_CLUSTERS: usize = 50;

/// The most paths of one refresh.
pub const MAX_REFRESH_PATHS: usize = 200;

/// The revision a sync compares with where the caller names none.
pub const DEFAULT_SINCE: &'static str = "HEAD~1";

/// Arguments of `sai_search_code`.
#[derive(Debug)]
pub struct SearchCodeArgs {
    pub query: String,
    pub limit: Option<u64>,
    pub language: Option<String>,
    pub path_glob: Option<String>,
    /// Return whole texts instead of snippets.
    pub include_text: bool,
}

/// Arguments of `sai_find_similar`: either `code`, or `path` and `line`.
#[derive(Debug)]
pub struct FindSimilarArgs {
    pub code: Option<String>,
    pub path: Option<String>,
    pub line: Option<usize>,
    pub limit: Option<u64>,
    pub min_score: Option<Score>,
}

/// Arguments of `sai_find_duplicates`.
#[derive(Debug)]
pub struct FindDuplicatesArgs {
    pub min_score: Option<Score>,
    pub min_cluster_size: Option<usize>,
    pub path_glob: Option<String>,
    pub max_clusters: Option<usize>,
    pub top_k: Option<u64>,
}

/// Arguments of `sai_index_status`.
#[derive(Debug)]
pub struct IndexStatusArgs {}

/// Arguments of `sai_refresh`.
#[derive(Debug)]
pub struct RefreshArgs {
    pub paths: Vec<String>,
}

/// Arguments of `sai_sync`.
#[derive(Debug)]
pub struct SyncArgs {
    pub since: Option<String>,
    pub staged: bool,
    pub paths: Vec<String>,
}

/// Arguments of `sai_prepare_mcp_setup`.
#[derive(Debug)]
pub struct PrepareMcpSetupArgs {
    pub target_directory: Option<String>,
    pub backend: Option<String>,
    pub embedder: Option<String>,
    pub use_ast_chunker: bool,
    pub install_globally: bool,
    pub execute: bool,
}

/// A call that is refused because of its arguments.
#[derive(Debug)]
pub struct InvalidParams {
    pub message: String,
}

/// A row of a search answer.
#[derive(Debug)]
pub struct SearchHit {
    pub path: String,
    pub start_line: usize,
    pub end_line: usize,
    pub symbol: Option<String>,
    pub score: Score,
    pub snippet: String,
}

/// What `sai_index_status` reports.
#[derive(Debug)]
pub struct IndexStatus {
    pub backend: String,
    pub collection: String,
    pub model: String,
    pub vector_dim: u64,
    pub chunk_count: u64,
    pub chunker: String,
}

/// What a refresh did: the paths stored again, with their chunks, and those removed.
#[derive(Debug)]
pub struct RefreshResult {
    pub refreshed: Vec<(String, usize)>,
    pub removed: Vec<String>,
}

/// A limit within bounds.
pub open spec fn clamped(n: int) -> int {
    if n < 1 {
        1
    } else if n > MAX_LIMIT {
        MAX_LIMIT as int
    } else {
        n
    }
}

/// Brings a limit within 1 and [`MAX_LIMIT`].
pub fn clamp_limit(n: u64) -> (r: u64)
    ensures
        r == clamped(n as int),
{
    if n < 1 {
        1
    } else if n > MAX_LIMIT {
        MAX_LIMIT
    } else {
        n
    }
}

/// The longest beginning of a text that takes at most `cap` bytes.
pub open spec fn fitting(s: Seq<char>, cap: int) -> Seq<char>
    decreases s.len(),
{
    if s.len() == 0 || text::byte_len(s) <= cap {
        s
    } else {
        fitting(s.drop_last(), cap)
    }
}

/// The first lines of a text.
pub open spec fn head_of(s: Seq<char>) -> Seq<char> {
    text::joined(lists::first_of(text::lines(s), SNIPPET_LINES as int), "\n"@)
}

/// The snippet of a text: its first lines, cut at a character where they take too many bytes, with an
/// ellipsis where they were cut.
pub open spec fn snippet(s: Seq<char>) -> Seq<char> {
    if text::byte_len(head_of(s)) <= SNIPPET_BYTES {
        head_of(s)
    } else {
        fitting(head_of(s), SNIPPET_BYTES as int) + "…"@
    }
}

proof fn lemma_byte_len_push(s: Seq<char>, i: int)
    requires
        0 <= i < s.len(),
    ensures
        text::byte_len(s.take(i + 1)) == text::byte_len(s.take(i)) + text::char_bytes(s[i]),
{
    assert(s.take(i + 1).drop_last() =~= s.take(i));
}

proof fn lemma_fitting(s: Seq<char>, cap: int, n: int)
    requires
        0 <= n < s.len(),
        0 <= cap,
        text::byte_len(s.take(n)) <= cap,
        text::byte_len(s.take(n + 1)) > cap,
    ensures
        fitting(s, cap) == s.take(n),
    decreases s.len(),
{
    lemma_byte_len_monotone(s, n + 1);
    if s.len() == n + 1 {
        assert(s.take(n + 1) =~= s);
        assert(s.drop_last() =~= s.take(n));
        assert(fitting(s.take(n), cap) == s.take(n));
    } else {
        let t = s.drop_last();
        assert(t.take(n) =~= s.take(n));
        assert(t.take(n + 1) =~= s.take(n + 1));
        lemma_fitting(t, cap, n);
    }
}

proof fn lemma_byte_len_monotone(s: Seq<char>, n: int)
    requires
        0 <= n <= s.len(),
    ensures
        text::byte_len(s.take(n)) <= text::byte_len(s),
    decreases s.len() - n,
{
    if n < s.len() {
        lemma_byte_len_monotone(s.drop_last(), n);
        assert(s.drop_last().take(n) =~= s.take(n));
    } else {
        assert(s.take(n) =~= s);
    }
}

/// The longest beginning of a text that takes at most `cap` bytes.
fn cut(s: &str, cap: u128) -> (r: String)
    ensures
        r@ == fitting(s@, cap as int),
{
    let v = text::chars_of(s);
    let mut used: u128 = 0;
    let mut i: usize = 0;
    assert(s@.take(0) =~= Seq::<char>::empty());
    while i < v.len()
        invariant
            i <= v@.len(),
            v@ == s@,
            used == text::byte_len(s@.take(i as int)),
            used <= cap,
            used <= 4 * i,
        decreases v@.len() - i,
    {
        let n: u8 = text::bytes_of_char(v[i]);
        proof {
            lemma_byte_len_push(s@, i as int);
        }
        if used + n as u128 > cap {
            proof {
                lemma_fitting(s@, cap as int, i as int);
            }
            let r = text::text_range(&v, 0, i);
            assert(r@ =~= s@.take(i as int));
            return r;
        }
        used = used + n as u128;
        i += 1;
    }
    assert(s@.take(i as int) =~= s@);
    s.to_string()
}

/// The snippet of a text.
pub fn snippet_of(s: &str) -> (r: String)
    ensures
        r@ == snippet(s@),
{
    let mut lines = text::lines_of(s);
    let ghost all = text::views(lines@);
    if lines.len() > SNIPPET_LINES {
        lines.truncate(SNIPPET_LINES);
    }
    assert(text::views(lines@) =~= lists::first_of(all, SNIPPET_LINES as int));
    let head = text::join(&lines, "\n");
    if text::byte_len_of(head.as_str()) <= SNIPPET_BYTES {
        head
    } else {
        cut(head.as_str(), SNIPPET_BYTES).concat("…")
    }
}

/// A snippet takes at most the capped number of bytes, and an ellipsis.
pub proof fn law_snippet_capped(s: Seq<char>)
    ensures
        text::byte_len(snippet(s)) <= SNIPPET_BYTES + 3,
{
    if text::byte_len(head_of(s)) > SNIPPET_BYTES {
        lemma_fitting_capped(head_of(s), SNIPPET_BYTES as int);
        reveal_strlit("…");
        let cut = fitting(head_of(s), SNIPPET_BYTES as int);
        assert((cut + "…"@).drop_last() =~= cut);
        assert((cut + "…"@).last() == '…');
    }
}

proof fn lemma_fitting_capped(s: Seq<char>, cap: int)
    requires
        0 <= cap,
    ensures
        text::byte_len(fitting(s, cap)) <= cap,
    decreases s.len(),
{
    if s.len() > 0 && text::byte_len(s) > cap {
        lemma_fitting_capped(s.drop_last(), cap);
    }
}

/// Whether a row is of the language asked for.
pub open spec fn of_language(h: Hit, want: Option<Seq<char>>) -> bool {
    match want {
        None => true,
        Some(l) => h.language@ == l,
    }
}

/// Whether a row is of the language asked for.
pub fn language_ok(hit: &Hit, want: &Option<String>) -> (r: bool)
    ensures
        r == of_language(*hit, opt(*want)),
{
    match want {
        None => true,
        Some(l) => text::same(hit.language.as_str(), l.as_str()),
    }
}

/// The text of an optional value.
pub open spec fn opt(s: Option<String>) -> Option<Seq<char>> {
    match s {
        Some(t) => Some(t@),
        None => None,
    }
}

/// Whether `r` is the answer row of a search row.
pub open spec fn is_row_of(h: Hit, include_text: bool, r: SearchHit) -> bool {
    &&& r.path == h.path
    &&& r.start_line == h.start_line
    &&& r.end_line == h.end_line
    &&& r.symbol == h.symbol
    &&& r.score == h.score
    &&& r.snippet@ == if include_text {
        h.text@
    } else {
        snippet(h.text@)
    }
}

/// The answer row of a search row.
pub fn to_search_hit(hit: Hit, include_text: bool) -> (r: SearchHit)
    ensures
        is_row_of(hit, include_text, r),
{
    let snippet = if include_text {
        hit.text.clone()
    } else {
        snippet_of(hit.text.as_str())
    };
    SearchHit {
        path: hit.path,
        start_line: hit.start_line,
        end_line: hit.end_line,
        symbol: hit.symbol,
        score: hit.score,
        snippet,
    }
}

/// The rows of the language asked for whose path passes the filter.
pub open spec fn selected(hits: Seq<Hit>, language: Option<Seq<char>>, filter: Option<PathFilter>) -> Seq<Hit> {
    hits.filter(|h: Hit| of_language(h, language) && vectordbs::admits(filter, h.path@))
}

/// How many rows are returned, and how many are fetched so that enough are left after filtering.
pub fn search_limits(limit: Option<u64>) -> (r: (u64, u64))
    ensures
        r.0 == clamped(match limit {
            Some(n) => n as int,
            None => DEFAULT_LIMIT as int,
        }),
        r.1 == clamped(r.0 * 4),
{
    let n: u64 = clamp_limit(
        match limit {
            Some(n) => n,
            None => DEFAULT_LIMIT,
        },
    );
    (n, clamp_limit(n * 4))
}

/// The answer of a code search: the first `limit` rows of the language asked for whose path passes
/// the filter.
pub fn search_rows(hits: Vec<Hit>, args: &SearchCodeArgs, filter: &Option<PathFilter>, limit: usize) -> (r: Vec<
    SearchHit,
>)
    ensures
        r@.len() == lists::first_of(selected(hits@, opt(args.language), *filter), limit as int).len(),
        forall|k: int|
            0 <= k < r@.len() ==> is_row_of(
                selected(hits@, opt(args.language), *filter)[k],
                args.include_text,
                #[trigger] r@[k],
            ),
{
    let ghost all = hits@;
    let ghost language = opt(args.language);
    let mut stack = lists::reversed(hits);
    let mut out: Vec<SearchHit> = Vec::new();
    let ghost mut done: int = 0;
    proof {
        reveal(Seq::filter);
        assert(selected(all.take(0), language, *filter) =~= Seq::<Hit>::empty());
    }
    while stack.len() > 0 && out.len() < limit
        invariant
            0 <= done <= all.len(),
            language == opt(args.language),
            stack@ =~= all.skip(done).reverse(),
            out@.len() <= limit,
            out@.len() == selected(all.take(done), language, *filter).len(),
            forall|k: int|
                0 <= k < out@.len() ==> is_row_of(
                    selected(all.take(done), language, *filter)[k],
                    args.include_text,
                    #[trigger] out@[k],
                ),
        decreases stack@.len(),
    {
        if let Some(h) = stack.pop() {
            proof {
                reveal(Seq::filter);
                assert(h == all[done]);
                assert(all.take(done + 1).drop_last() =~= all.take(done));
                assert(all.take(done + 1).last() == h);
                done = done + 1;
            }
            if language_ok(&h, &args.language) && passes(filter, h.path.as_str()) {
                out.push(to_search_hit(h, args.include_text));
            }
        }
    }
    proof {
        lemma_selected_grows(all, language, *filter, done);
        if stack@.len() == 0 {
            assert(all.take(done) =~= all);
        }
    }
    out
}

proof fn lemma_selected_grows(hits: Seq<Hit>, language: Option<Seq<char>>, filter: Option<PathFilter>, n: int)
    requires
        0 <= n <= hits.len(),
    ensures
        selected(hits.take(n), language, filter).len() <= selected(hits, language, filter).len(),
        forall|k: int|
            0 <= k < selected(hits.take(n), language, filter).len() ==> #[trigger] selected(
                hits.take(n),
                language,
                filter,
            )[k] == selected(hits, language, filter)[k],
    decreases hits.len() - n,
{
    reveal(Seq::filter);
    if n < hits.len() {
        lemma_selected_grows(hits.drop_last(), language, filter, n);
        assert(hits.drop_last().take(n) =~= hits.take(n));
    } else {
        assert(hits.take(n) =~= hits);
    }
}

/// Compiles the path glob of a call.
pub fn compile_glob_opt(pattern: &Option<String>) -> (r: Result<Option<PathFilter>, InvalidParams>)
    ensures
        match *pattern {
            None => r matches Ok(None),
            Some(p) => if vectordbs::path_glob_usable(p@) {
                r matches Ok(Some(f)) && crate::globs::set_globs(f.set) == seq![p@]
            } else {
                r matches Err(e) && e.message@ == "invalid path_glob '"@ + p@ + "': "@ + vectordbs::path_glob_fault(p@)
            },
        },
{
    let given: Option<&str> = match pattern {
        Some(p) => Some(p.as_str()),
        None => None,
    };
    match compile_path_glob(given) {
        Ok(f) => Ok(f),
        Err(e) => Err(
            InvalidParams {
                message: "invalid path_glob '".to_string().concat(e.pattern.as_str()).concat("': ").concat(
                    e.reason.as_str(),
                ),
            },
        ),
    }
}

/// The model that the status names: the Ollama model where DuckDB holds its vectors, else the plan's.
pub open spec fn label_of(plan: Plan) -> Seq<char> {
    if plan.backend@ == "duckdb"@ && plan.embedder@ == "ollama"@ && plan.ollama_model is Some {
        plan.ollama_model->0@
    } else {
        plan.model@
    }
}

/// The model that the status names.
pub fn model_label(plan: &Plan) -> (r: String)
    ensures
        r@ == label_of(*plan),
{
    if text::same(plan.backend.as_str(), "duckdb") && text::same(plan.embedder.as_str(), "ollama") {
        match &plan.ollama_model {
            Some(m) => m.clone(),
            None => plan.model.clone(),
        }
    } else {
        plan.model.clone()
    }
}

/// What the server knows of its plan and its flags.
#[derive(Debug)]
pub struct SaiServer {
    pub backend_name: String,
    pub collection: String,
    pub model: String,
    pub vector_dim: u64,
    pub chunker: String,
    pub can_embed_locally: bool,
    pub allow_write: bool,
    pub allow_setup: bool,
    pub find_similar_min_score: Score,
    pub duplicate_min_score: Score,
    pub duplicate_min_cluster_size: usize,
    pub duplicate_top_k: u64,
}

/// What a sync has to do.
#[derive(Debug)]
pub enum SyncWork {
    /// Nothing changed.
    Nothing,
    /// These paths are to be refreshed.
    Refresh(Vec<String>),
}

impl SaiServer {
    /// The server of a plan.
    pub fn new(plan: &Plan, allow_write: bool, allow_setup: bool) -> (r: SaiServer)
        ensures
            r.backend_name@ == plan.backend@,
            r.collection@ == plan.collection@,
            r.model@ == label_of(*plan),
            r.vector_dim == plan.vector_dim,
            r.chunker@ == plan.chunker@,
            r.can_embed_locally == plan.embeds_locally(),
            r.allow_write == allow_write,
            r.allow_setup == allow_setup,
            r.find_similar_min_score == plan.find_similar_min_score,
            r.duplicate_min_score == plan.duplicate_min_score,
            r.duplicate_min_cluster_size == plan.duplicate_min_cluster_size,
            r.duplicate_top_k == plan.top_k,
    {
        SaiServer {
            backend_name: plan.backend.clone(),
            collection: plan.collection.clone(),
            model: model_label(plan),
            vector_dim: plan.vector_dim,
            chunker: plan.chunker.clone(),
            can_embed_locally: plan.can_embed_locally(),
            allow_write,
            allow_setup,
            find_similar_min_score: plan.find_similar_min_score(),
            duplicate_min_score: plan.duplicate_min_score(),
            duplicate_min_cluster_size: plan.duplicate_min_cluster_size(),
            duplicate_top_k: plan.top_k() as u64,
        }
    }

    /// What a similarity call looks for. A snippet needs an embedder on this machine, and is taken
    /// even where a location is given as well; a location needs path and line.
    pub fn similar_target(&self, args: &FindSimilarArgs) -> (r: Result<SimilarTarget, InvalidParams>)
        ensures
            match args.code {
                Some(code) => if self.can_embed_locally {
                    r matches Ok(SimilarTarget::Code(c)) && c@ == code@
                } else {
                    r matches Err(e) && e.message@
                        == "sai_find_similar { code } requires a local embedder (duckdb backend)"@
                },
                None => if args.path is Some && args.line is Some {
                    r matches Ok(SimilarTarget::Location { path, line }) && path@ == args.path->0@ && Some(line)
                        == args.line
                } else {
                    r matches Err(e) && e.message@
                        == "sai_find_similar requires either `code` or both `path` and `line`"@
                },
            },
    {
        if let Some(code) = &args.code {
            if !self.can_embed_locally {
                return Err(
                    InvalidParams {
                        message: "sai_find_similar { code } requires a local embedder (duckdb backend)".to_string(),
                    },
                );
            }
            return Ok(SimilarTarget::Code(code.clone()));
        }
        if let Some(path) = &args.path {
            if let Some(line) = args.line {
                return Ok(SimilarTarget::Location { path: path.clone(), line });
            }
        }
        Err(
            InvalidParams {
                message: "sai_find_similar requires either `code` or both `path` and `line`".to_string(),
            },
        )
    }

    /// The least score of a similarity call: the caller's, or the plan's.
    pub fn similar_min_score(&self, args: &FindSimilarArgs) -> (r: Score)
        ensures
            r == (match args.min_score {
                Some(s) => s,
                None => self.find_similar_min_score,
            }),
    {
        match args.min_score {
            Some(s) => s,
            None => self.find_similar_min_score,
        }
    }

    /// How many rows a similarity call returns.
    pub fn similar_limit(&self, args: &FindSimilarArgs) -> (r: u64)
        ensures
            r == clamped(match args.limit {
                Some(n) => n as int,
                None => DEFAULT_LIMIT as int,
            }),
    {
        clamp_limit(
            match args.limit {
                Some(n) => n,
                None => DEFAULT_LIMIT,
            },
        )
    }

    /// What decides the clusters of a call: the caller's values, or the plan's. The neighbours per
    /// chunk are kept within bounds, and no cluster is smaller than one.
    pub fn duplicate_knobs(&self, args: &FindDuplicatesArgs) -> (r: DuplicateKnobs)
        ensures
            r.top_k == clamped(match args.top_k {
                Some(n) => n as int,
                None => self.duplicate_top_k as int,
            }),
            r.min_cluster_size == at_least_one(match args.min_cluster_size {
                Some(n) => n as int,
                None => self.duplicate_min_cluster_size as int,
            }),
            r.min_score == (match args.min_score {
                Some(s) => s,
                None => self.duplicate_min_score,
            }),
            r.max_clusters == (match args.max_clusters {
                Some(n) => n,
                None => DEFAULT_DUP_MAX_CLUSTERS,
            }),
    {
        let size: usize = match args.min_cluster_size {
            Some(n) => n,
            None => self.duplicate_min_cluster_size,
        };
        DuplicateKnobs {
            min_score: match args.min_score {
                Some(s) => s,
                None => self.duplicate_min_score,
            },
            min_cluster_size: if size < 1 {
                1
            } else {
                size
            },
            top_k: clamp_limit(
                match args.top_k {
                    Some(n) => n,
                    None => self.duplicate_top_k,
                },
            ),
            max_clusters: match args.max_clusters {
                Some(n) => n,
                None => DEFAULT_DUP_MAX_CLUSTERS,
            },
        }
    }

    /// The status of the index.
    pub fn index_status(&self, chunk_count: u64) -> (r: IndexStatus)
        ensures
            r.backend@ == self.backend_name@,
            r.collection@ == self.collection@,
            r.model@ == self.model@,
            r.vector_dim == self.vector_dim,
            r.chunk_count == chunk_count,
            r.chunker@ == self.chunker@,
    {
        IndexStatus {
            backend: self.backend_name.clone(),
            collection: self.collection.clone(),
            model: self.model.clone(),
            vector_dim: self.vector_dim,
            chunk_count,
            chunker: self.chunker.clone(),
        }
    }

    /// Whether a refresh is allowed: the server writes, and there are some paths but not too many.
    pub fn check_refresh(&self, args: &RefreshArgs) -> (r: Result<(), InvalidParams>)
        ensures
            r is Ok <==> self.allow_write && 0 < args.paths@.len() <= MAX_REFRESH_PATHS,
            r matches Err(e) ==> e.message@ == if !self.allow_write {
                "server is read-only; restart with --allow-write to enable refresh"@
            } else if args.paths@.len() == 0 {
                "refresh requires at least one path"@
            } else {
                "too many paths (max 200)"@
            },
    {
        if !self.allow_write {
            return Err(
                InvalidParams {
                    message: "server is read-only; restart with --allow-write to enable refresh".to_string(),
                },
            );
        }
        if args.paths.len() == 0 {
            return Err(InvalidParams { message: "refresh requires at least one path".to_string() });
        }
        if args.paths.len() > MAX_REFRESH_PATHS {
            return Err(InvalidParams { message: "too many paths (max 200)".to_string() });
        }
        Ok(())
    }

    /// Where the changed files of a sync come from. The server must write.
    pub fn sync_source(&self, args: &SyncArgs) -> (r: Result<ChangedFiles, InvalidParams>)
        ensures
            !self.allow_write ==> (r matches Err(e) && e.message@
                == "server is read-only; restart with --allow-write to enable sync"@),
            self.allow_write && args.paths@.len() > 0 ==> (r matches Ok(ChangedFiles::Explicit(files)) && files@
                == args.paths@),
            self.allow_write && args.paths@.len() == 0 ==> (r matches Ok(ChangedFiles::Diff(list))
                && text::views(list@) == git::diff_args(
                Some(
                    match args.since {
                        Some(s) => s@,
                        None => DEFAULT_SINCE@,
                    },
                ),
                args.staged,
            )),
    {
        if !self.allow_write {
            return Err(
                InvalidParams {
                    message: "server is read-only; restart with --allow-write to enable sync".to_string(),
                },
            );
        }
        let since = match &args.since {
            Some(s) => s.as_str(),
            None => DEFAULT_SINCE,
        };
        Ok(changed_files(Some(since), args.staged, &args.paths))
    }

    /// What a sync has to do for the changed files, of which there must not be too many.
    pub fn sync_work(&self, changed: Vec<String>) -> (r: Result<SyncWork, InvalidParams>)
        ensures
            changed@.len() == 0 ==> r matches Ok(SyncWork::Nothing),
            0 < changed@.len() <= MAX_REFRESH_PATHS ==> (r matches Ok(SyncWork::Refresh(paths)) && paths == changed),
            changed@.len() > MAX_REFRESH_PATHS ==> (r matches Err(e) && e.message@ == "too many changed files ("@
                + text::decimal(changed@.len()) + "; max 200). Narrow `since` or pass explicit `paths`."@),
    {
        if changed.len() == 0 {
            return Ok(SyncWork::Nothing);
        }
        if changed.len() > MAX_REFRESH_PATHS {
            return Err(
                InvalidParams {
                    message: "too many changed files (".to_string().concat(
                        text::decimal_of(changed.len() as u64).as_str(),
                    ).concat("; max 200). Narrow `since` or pass explicit `paths`."),
                },
            );
        }
        Ok(SyncWork::Refresh(changed))
    }
}

/// Where the setup script is looked for, below the directory of the running binary.
pub const SETUP_SCRIPT_IN_CHECKOUT: &'static str = "../../mcp-setup/setup.sh";

/// Where the setup script is looked for next.
pub const SETUP_SCRIPT_INSTALLED: &'static str = "../mcp-setup/setup.sh";

/// The command that installs a released binary.
pub const RELEASE_INSTALLER: &'static str =
    "curl -fsSL https://maadgrom.github.io/semanticastindexer/install.sh | bash";

/// What is said of a setup from a checkout.
pub const SCRIPT_FOUND_NOTES: &'static str =
    "For fully offline use, prefer embedder=ort (much longer first build). The setup script was found next to this binary and the recommended_command is ready to run.";

/// What is said of a setup without a checkout.
pub const SCRIPT_MISSING_NOTES: &'static str =
    "mcp-setup/setup.sh was not found next to this binary (release install?). The recommended_command is a one-liner that downloads and installs a prebuilt binary and wires up the MCP client. Building from source via mcp-setup/setup.sh requires a source checkout of the repository.";

/// Why a setup is not run without the script.
pub const SCRIPT_MISSING_REASON: &'static str =
    "mcp-setup/setup.sh not found next to this binary (release install?); run the curl installer manually";

/// Why a setup is not run by a server that may not.
pub const SETUP_NOT_ALLOWED_REASON: &'static str = "Server not started with --allow-setup";

/// Whether the recommended command is run.
#[derive(Debug)]
pub enum SetupExecution {
    /// It was not asked for.
    NotAsked,
    /// It was asked for and is refused.
    Blocked(String),
    /// It runs in the target directory.
    Run,
}

/// The answer of `sai_prepare_mcp_setup`.
#[derive(Debug)]
pub struct SetupPlan {
    pub target_directory: String,
    pub recommended_command: String,
    pub notes: String,
    pub execution: SetupExecution,
}

/// The value given, or a default.
pub open spec fn given_or(v: Option<String>, default: Seq<char>) -> Seq<char> {
    match v {
        Some(s) => s@,
        None => default,
    }
}

/// The features a binary is built with for these choices.
pub open spec fn setup_features(backend: Seq<char>, embedder: Seq<char>, ast: bool) -> Seq<Seq<char>> {
    seq!["mcp"@, backend] + (if backend == "duckdb"@ {
        seq![embedder]
    } else {
        Seq::empty()
    }) + (if ast {
        seq!["ast"@]
    } else {
        Seq::empty()
    })
}

/// The command that sets a project up with the script.
pub open spec fn setup_command(args: PrepareMcpSetupArgs, script: Seq<char>, target: Seq<char>) -> Seq<char> {
    let backend = given_or(args.backend, "duckdb"@);
    let embedder = given_or(args.embedder, "ollama"@);
    script + " --non-interactive --backend "@ + backend + " --embedder "@ + embedder + " --target-dir \""@ + target
        + "\" --features \""@ + text::joined(setup_features(backend, embedder, args.use_ast_chunker), ","@) + "\""@
        + (if args.install_globally {
        " --install-global"@
    } else {
        Seq::empty()
    })
}

/// The directory a setup is for: the one given, else the working directory, else `.`.
pub open spec fn setup_target(args: PrepareMcpSetupArgs, cwd: Option<Seq<char>>) -> Seq<char> {
    match args.target_directory {
        Some(t) => t@,
        None => match cwd {
            Some(c) => c,
            None => "."@,
        },
    }
}

fn text_or(v: &Option<String>, default: &str) -> (r: String)
    ensures
        r@ == given_or(*v, default@),
{
    match v {
        Some(s) => s.clone(),
        None => default.to_string(),
    }
}

fn feature_list(backend: &str, embedder: &str, ast: bool) -> (r: Vec<String>)
    ensures
        text::views(r@) == setup_features(backend@, embedder@, ast),
{
    let mut r: Vec<String> = Vec::new();
    r.push("mcp".to_string());
    r.push(backend.to_string());
    if text::same(backend, "duckdb") {
        r.push(embedder.to_string());
    }
    if ast {
        r.push("ast".to_string());
    }
    assert(text::views(r@) =~= setup_features(backend@, embedder@, ast));
    r
}

impl SaiServer {
    /// How a project is set up: with the script found beside the binary, else with the released
    /// installer, which is never run from here. `cwd` is the working directory and `script` the path
    /// of the script, where they could be found.
    pub fn prepare_setup(&self, args: &PrepareMcpSetupArgs, cwd: Option<&str>, script: Option<&str>) -> (r: SetupPlan)
        ensures
            r.target_directory@ == setup_target(
                *args,
                match cwd {
                    Some(c) => Some(c@),
                    None => None,
                },
            ),
            match script {
                Some(s) => {
                    &&& r.recommended_command@ == setup_command(*args, s@, r.target_directory@)
                    &&& r.notes@ == SCRIPT_FOUND_NOTES@
                },
                None => {
                    &&& r.recommended_command@ == RELEASE_INSTALLER@
                    &&& r.notes@ == SCRIPT_MISSING_NOTES@
                },
            },
            match r.execution {
                SetupExecution::NotAsked => !args.execute,
                SetupExecution::Blocked(reason) => args.execute && ((script is None && reason@
                    == SCRIPT_MISSING_REASON@) || (script is Some && !self.allow_setup && reason@
                    == SETUP_NOT_ALLOWED_REASON@)),
                SetupExecution::Run => args.execute && script is Some && self.allow_setup,
            },
    {
        let target = match &args.target_directory {
            Some(t) => t.clone(),
            None => match cwd {
                Some(c) => c.to_string(),
                None => ".".to_string(),
            },
        };
        let execution = if !args.execute {
            SetupExecution::NotAsked
        } else if script.is_none() {
            SetupExecution::Blocked(SCRIPT_MISSING_REASON.to_string())
        } else if self.allow_setup {
            SetupExecution::Run
        } else {
            SetupExecution::Blocked(SETUP_NOT_ALLOWED_REASON.to_string())
        };
        match script {
            Some(script) => {
                let backend = text_or(&args.backend, "duckdb");
                let embedder = text_or(&args.embedder, "ollama");
                let features = text::join(
                    &feature_list(backend.as_str(), embedder.as_str(), args.use_ast_chunker),
                    ",",
                );
                let command = script.to_string().concat(" --non-interactive --backend ").concat(
                    backend.as_str(),
                ).concat(" --embedder ").concat(embedder.as_str()).concat(" --target-dir \"").concat(
                    target.as_str(),
                ).concat("\" --features \"").concat(features.as_str()).concat("\"").concat(
                    if args.install_globally {
                        " --install-global"
                    } else {
                        ""
                    },
                );
                proof {
                    reveal_strlit("");
                    assert(""@ =~= Seq::<char>::empty());
                }
                SetupPlan {
                    target_directory: target,
                    recommended_command: command,
                    notes: SCRIPT_FOUND_NOTES.to_string(),
                    execution,
                }
            },
            None => SetupPlan {
                target_directory: target,
                recommended_command: RELEASE_INSTALLER.to_string(),
                notes: SCRIPT_MISSING_NOTES.to_string(),
                execution,
            },
        }
    }
}

/// At least one.
pub open spec fn at_least_one(n: int) -> int {
    if n < 1 {
        1
    } else {
        n
    }
}

/// The paths that were stored again, with their chunks.
pub open spec fn refreshed(entries: Seq<(String, ReindexOutcome)>) -> Seq<(String, usize)>
    decreases entries.len(),
{
    if entries.len() == 0 {
        Seq::empty()
    } else {
        let front = refreshed(entries.drop_last());
        match entries.last().1 {
            ReindexOutcome::Reindexed { chunks } => front.push((entries.last().0, chunks)),
            ReindexOutcome::Removed { reason } => front,
        }
    }
}

/// The paths that were removed.
pub open spec fn removed(entries: Seq<(String, ReindexOutcome)>) -> Seq<String>
    decreases entries.len(),
{
    if entries.len() == 0 {
        Seq::empty()
    } else {
        let front = removed(entries.drop_last());
        match entries.last().1 {
            ReindexOutcome::Reindexed { chunks } => front,
            ReindexOutcome::Removed { reason } => front.push(entries.last().0),
        }
    }
}

/// What a refresh did, in the order of its paths.
pub fn refresh_result(report: RefreshReport) -> (r: RefreshResult)
    ensures
        r.refreshed@ == refreshed(report.entries@),
        r.removed@ == removed(report.entries@),
{
    let ghost all = report.entries@;
    let mut stack = lists::reversed(report.entries);
    let mut again: Vec<(String, usize)> = Vec::new();
    let mut gone: Vec<String> = Vec::new();
    let ghost mut done: int = 0;
    assert(all.take(0) =~= Seq::<(String, ReindexOutcome)>::empty());
    while stack.len() > 0
        invariant
            0 <= done <= all.len(),
            stack@ =~= all.skip(done).reverse(),
            again@ == refreshed(all.take(done)),
            gone@ == removed(all.take(done)),
        decreases stack@.len(),
    {
        if let Some((path, outcome)) = stack.pop() {
            proof {
                assert((path, outcome) == all[done]);
                assert(all.take(done + 1).drop_last() =~= all.take(done));
                assert(all.take(done + 1).last() == (path, outcome));
                done = done + 1;
            }
            match outcome {
                ReindexOutcome::Reindexed { chunks } => {
                    again.push((path, chunks));
                },
                ReindexOutcome::Removed { reason: _ } => {
                    gone.push(path);
                },
            }
        }
    }
    assert(all.take(done) =~= all);
    RefreshResult { refreshed: again, removed: gone }
}

/// Every path of a refresh is either stored again or removed.
pub proof fn law_refresh_result_complete(entries: Seq<(String, ReindexOutcome)>)
    ensures
        refreshed(entries).len() + removed(entries).len() == entries.len(),
    decreases entries.len(),
{
    if entries.len() > 0 {
        law_refresh_result_complete(entries.drop_last());
    }
}

/// The rows of a code search are found rows, in the order in which they were found, with the path,
/// lines, symbol and score that were found, and with the whole text where that was asked for. A found
/// row is returned exactly if it is of the language asked for, where one is, its path passes the
/// filter, where there is one, and fewer than `limit` rows are returned before it.
pub proof fn law_search_code_rows(
    hits: Seq<Hit>,
    language: Option<String>,
    filter: Option<PathFilter>,
    include_text: bool,
    limit: nat,
    r: Seq<SearchHit>,
) -> (at: Seq<int>)
    requires
        r.len() == lists::first_of(selected(hits, opt(language), filter), limit as int).len(),
        forall|k: int|
            0 <= k < r.len() ==> is_row_of(
                selected(hits, opt(language), filter)[k],
                include_text,
                #[trigger] r[k],
            ),
    ensures
        lists::are_places(at, hits.len() as int),
        r.len() == at.len() <= limit,
        forall|k: int|
            0 <= k < r.len() ==> {
                let h = hits[at[k]];
                &&& (#[trigger] r[k]).path@ == h.path@
                &&& r[k].start_line == h.start_line
                &&& r[k].end_line == h.end_line
                &&& r[k].symbol == h.symbol
                &&& r[k].score == h.score
                &&& include_text ==> r[k].snippet@ == h.text@
                &&& language matches Some(l) ==> h.language@ == l@
                &&& filter matches Some(f) ==> globs::globs_match(globs::set_globs(f.set), r[k].path@)
            },
        forall|i: int|
            #![trigger at.contains(i)]
            0 <= i < hits.len() && !at.contains(i) && (language matches Some(l) ==> hits[i].language@ == l@) && (
            filter matches Some(f) ==> globs::globs_match(globs::set_globs(f.set), hits[i].path@)) ==> at.len()
                == limit && (forall|k: int| 0 <= k < at.len() ==> #[trigger] at[k] < i),
{
    let pred = |h: Hit| of_language(h, opt(language)) && vectordbs::admits(filter, h.path@);
    let all = lists::lemma_filter_places(hits, pred);
    let kept = selected(hits, opt(language), filter);
    let at = all.take(r.len() as int);
    assert forall|k: int| 0 <= k < r.len() implies {
        let h = hits[at[k]];
        &&& (#[trigger] r[k]).path@ == h.path@
        &&& r[k].start_line == h.start_line
        &&& r[k].end_line == h.end_line
        &&& r[k].symbol == h.symbol
        &&& r[k].score == h.score
        &&& include_text ==> r[k].snippet@ == h.text@
        &&& language matches Some(l) ==> h.language@ == l@
        &&& filter matches Some(f) ==> globs::globs_match(globs::set_globs(f.set), r[k].path@)
    } by {
        assert(hits.filter(pred)[k] == hits[all[k]]);
        assert(is_row_of(kept[k], include_text, r[k]));
        assert(all.contains(all[k]));
    }
    assert forall|i: int|
        0 <= i < hits.len() && !(#[trigger] at.contains(i)) && (language matches Some(l) ==> hits[i].language@ == l@) && (
        filter matches Some(f) ==> globs::globs_match(globs::set_globs(f.set), hits[i].path@)) implies at.len() == limit
        && (forall|k: int| 0 <= k < at.len() ==> #[trigger] at[k] < i) by {
        assert(all.contains(i) <==> pred(hits[i]));
        let m = choose|m: int| 0 <= m < all.len() && all[m] == i;
        if m < r.len() {
            assert(at[m] == i);
        }
    }
    at
}

proof fn lemma_fitting_longest(s: Seq<char>, cap: int)
    requires
        0 <= cap < text::byte_len(s),
    ensures
        fitting(s, cap).len() < s.len(),
        fitting(s, cap) == s.take(fitting(s, cap).len() as int),
        text::byte_len(s.take((fitting(s, cap).len() + 1) as int)) > cap,
    decreases s.len(),
{
    let t = s.drop_last();
    let cut = fitting(t, cap);
    assert(fitting(s, cap) == cut);
    if text::byte_len(t) <= cap {
        assert(cut == t);
        assert(s.take(cut.len() as int) =~= t);
        assert(s.take((cut.len() + 1) as int) =~= s);
    } else {
        lemma_fitting_longest(t, cap);
        assert(t.take(cut.len() as int) =~= s.take(cut.len() as int));
        assert(t.take((cut.len() + 1) as int) =~= s.take((cut.len() + 1) as int));
    }
}

/// A snippet is the first eight lines of a text, or all where there are fewer, without the last line
/// ending. Where these take more than 800 bytes, it is as many of their characters as 800 bytes hold,
/// and an ellipsis.
pub proof fn law_snippet(s: Seq<char>, head: Seq<char>)
    requires
        text::lines(s).len() <= 8 ==> head == text::joined(text::lines(s), "\n"@),
        text::lines(s).len() > 8 ==> head == text::joined(text::lines(s).take(8), "\n"@),
    ensures
        text::byte_len(head) <= 800 ==> snippet(s) == head,
        text::byte_len(head) > 800 ==> exists|n: int|
            0 <= n < head.len() && snippet(s) == #[trigger] head.take(n).push('…') && text::byte_len(head.take(n))
                <= 800 && text::byte_len(head.take(n + 1)) > 800,
{
    let lines = text::lines(s);
    assert(head == head_of(s)) by {
        assert(lines.len() == 8 ==> lines.take(8) =~= lines);
    }
    if text::byte_len(head) > 800 {
        lemma_fitting_longest(head, 800);
        lemma_fitting_capped(head, 800);
        reveal_strlit("…");
        let n = fitting(head, 800).len() as int;
        assert("…"@ =~= seq!['…']);
        assert(snippet(s) =~= head.take(n).push('…'));
        assert(text::byte_len(head.take(n)) <= 800);
        assert(text::byte_len(head.take(n + 1)) > 800);
    }
}

/// A limit asked for is taken as it is from 1 to 50, and brought to the nearer of the two otherwise.
pub proof fn law_limit_bounds(n: int)
    ensures
        1 <= n <= 50 ==> clamped(n) == n,
        n < 1 ==> clamped(n) == 1,
        n > 50 ==> clamped(n) == 50,
        n >= 1 ==> at_least_one(n) == n,
        n < 1 ==> at_least_one(n) == 1,
{
}

/// What a refresh did, told apart: each path that was stored again is listed with its number of
/// chunks, each that was removed is listed as such, both in the order of the paths, and nothing else.
pub proof fn law_refresh_result_rows(entries: Seq<(String, ReindexOutcome)>) -> (at: (Seq<int>, Seq<int>))
    ensures
        lists::are_places(at.0, entries.len() as int),
        lists::are_places(at.1, entries.len() as int),
        refreshed(entries).len() == at.0.len(),
        removed(entries).len() == at.1.len(),
        forall|k: int|
            0 <= k < at.0.len() ==> {
                &&& refreshed(entries)[k].0 == entries[#[trigger] at.0[k]].0
                &&& entries[at.0[k]].1 == (ReindexOutcome::Reindexed { chunks: refreshed(entries)[k].1 })
            },
        forall|k: int| 0 <= k < at.1.len() ==> removed(entries)[k] == entries[#[trigger] at.1[k]].0,
        forall|i: int| 0 <= i < entries.len() ==> (#[trigger] at.0.contains(i) <==> entries[i].1 is Reindexed),
        forall|i: int| 0 <= i < entries.len() ==> (#[trigger] at.1.contains(i) <==> entries[i].1 is Removed),
    decreases entries.len(),
{
    if entries.len() == 0 {
        (Seq::empty(), Seq::empty())
    } else {
        let n = entries.len() - 1;
        let before = law_refresh_result_rows(entries.drop_last());
        let again = entries.last().1 is Reindexed;
        let at = if again {
            (before.0.push(n), before.1)
        } else {
            (before.0, before.1.push(n))
        };
        lemma_places_grow(before.0, n);
        lemma_places_grow(before.1, n);
        assert forall|i: int| 0 <= i < entries.len() implies (#[trigger] at.0.contains(i) <==> entries[i].1 is Reindexed) by {
            if i < n {
                assert(entries.drop_last()[i] == entries[i]);
                assert(before.0.contains(i) <==> entries[i].1 is Reindexed);
            }
        }
        assert forall|i: int| 0 <= i < entries.len() implies (#[trigger] at.1.contains(i) <==> entries[i].1 is Removed) by {
            if i < n {
                assert(entries.drop_last()[i] == entries[i]);
                assert(before.1.contains(i) <==> entries[i].1 is Removed);
            }
        }
        at
    }
}

proof fn lemma_places_grow(at: Seq<int>, n: int)
    requires
        lists::are_places(at, n),
    ensures
        !at.contains(n),
        at.push(n).contains(n),
        forall|i: int| i != n ==> (#[trigger] at.push(n).contains(i) <==> at.contains(i)),
{
    if at.contains(n) {
        let k = choose|k: int| 0 <= k < at.len() && at[k] == n;
        assert(at[k] < n);
    }
    assert(at.push(n)[at.len() as int] == n);
    assert forall|i: int| i != n implies (#[trigger] at.push(n).contains(i) <==> at.contains(i)) by {
        if at.contains(i) {
            let k = choose|k: int| 0 <= k < at.len() && at[k] == i;
            assert(at.push(n)[k] == i);
        }
        if at.push(n).contains(i) {
            let k = choose|k: int| 0 <= k < at.push(n).len() && at.push(n)[k] == i;
            assert(at[k] == i);
        }
    }
}

/// The status names the Ollama model exactly where Ollama embeds for DuckDB and a model is set.
pub proof fn law_model_named(plan: Plan)
    ensures
        plan.backend@ != "duckdb"@ || plan.embedder@ != "ollama"@ ==> label_of(plan) == plan.model@,
        plan.ollama_model is None ==> label_of(plan) == plan.model@,
        plan.backend@ == "duckdb"@ && plan.embedder@ == "ollama"@ ==> (plan.ollama_model matches Some(m)
            ==> label_of(plan) == m@),
{
}

/// A binary is built with `mcp` and the backend; with the embedder exactly for DuckDB; and with `ast`
/// where that is asked for; nothing else. The features can be read back from the command, as long as
/// no name holds a comma.
pub proof fn law_setup_features(backend: Seq<char>, embedder: Seq<char>, ast: bool, f: Seq<char>)
    ensures
        setup_features(backend, embedder, ast).contains(f) <==> (f == "mcp"@ || f == backend || (f == embedder
            && backend == "duckdb"@) || (f == "ast"@ && ast)),
        !backend.contains(',') && !embedder.contains(',') ==> text::split(
            text::joined(setup_features(backend, embedder, ast), ","@),
            ',',
        ) == setup_features(backend, embedder, ast),
{
    let all = setup_features(backend, embedder, ast);
    reveal_strlit(",");
    reveal_strlit("mcp");
    reveal_strlit("ast");
    assert(","@ =~= seq![',']);
    assert(all[0] == "mcp"@ && all[1] == backend);
    assert(all.contains(all[0]) && all.contains(all[1]));
    if all.len() > 2 {
        assert(all.contains(all[2]));
    }
    if all.len() > 3 {
        assert(all.contains(all[3]));
    }
    if !backend.contains(',') && !embedder.contains(',') {
        assert forall|k: int| 0 <= k < all.len() implies !(#[trigger] all[k]).contains(',') by {
            assert(all[k] == "mcp"@ || all[k] == backend || all[k] == embedder || all[k] == "ast"@);
            assert(!"mcp"@.contains(','));
            assert(!"ast"@.contains(','));
        }
        text::law_split_joined(all, ',');
    }
}

/// A setup is for the directory that was given, else for the working directory, and for `.` where that
/// is not known.
pub proof fn law_setup_target(args: PrepareMcpSetupArgs, cwd: Option<Seq<char>>)
    ensures
        args.target_directory matches Some(t) ==> setup_target(args, cwd) == t@,
        args.target_directory is None && cwd is Some ==> setup_target(args, cwd) == cwd->0,
        args.target_directory is None && cwd is None ==> setup_target(args, cwd) == "."@,
{
}

} // verus!
