//! Config values, and how they and the flags resolve into a [`Plan`].

use crate::cli::Args;
use crate::domain::embedding;
use crate::domain::embedding::{PrefixStyle, UnknownPrefixStyle};
use crate::globs;
use crate::globs::GlobFault;
use crate::score::Score;
use crate::search::copy_text;
use crate::text;
use globset::GlobSet;
use vstd::prelude::*;

pub use crate::domain::plan::Plan;

verus! {

/// The standard config filename.
pub const DEFAULT_CONFIG: &'static str = "sai-cfg.yml";

/// The other spelling of the standard config filename.
pub const DEFAULT_CONFIG_YAML: &'static str = "sai-cfg.yaml";

/// The config filename of earlier releases.
pub const LEGACY_CONFIG: &'static str = "indexer.yaml";

pub const DEFAULT_COLLECTION: &'static str = "source_code";

/// Default model of server-side inference.
pub const DEFAULT_MODEL: &'static str = "intfloat/multilingual-e5-small";

/// Default model of the `ort` embedder.
pub const DEFAULT_ORT_MODEL: &'static str = "jinaai/jina-embeddings-v2-base-code";

pub const DEFAULT_VECTOR_DIM: u64 = 384;

pub const DEFAULT_ORT_VECTOR_DIM: u64 = 768;

pub const DEFAULT_BACKEND: &'static str = "qdrant";

/// Default backend of the MCP server: the one that needs no network.
pub const MCP_DEFAULT_BACKEND: &'static str = "duckdb";

/// Default embedder of every backend but `qdrant`.
pub const DEFAULT_EMBEDDER: &'static str = "ort";

pub const DEFAULT_CHUNKER: &'static str = "lines";

pub const DEFAULT_DUCKDB_PATH: &'static str = ".index/code.duckdb";

pub const DEFAULT_MODEL_REPO: &'static str = "Xenova/multilingual-e5-small";

/// Default repository of the `ort` embedder.
pub const DEFAULT_ORT_MODEL_REPO: &'static str = "jinaai/jina-embeddings-v2-base-code";

pub const DEFAULT_OLLAMA_URL: &'static str = "http://localhost:11434";

pub const DEFAULT_OLLAMA_MODEL: &'static str = "mxbai-embed-large";

/// The bits of 0.85, the default least score of a similarity search.
pub const DEFAULT_FIND_SIMILAR_MIN_SCORE: u32 = 0x3f59_999a;

/// The bits of 0.93, the default least score that links near-duplicates.
pub const DEFAULT_DUPLICATE_MIN_SCORE: u32 = 0x3f6e_147b;

pub const DEFAULT_DUPLICATE_MIN_CLUSTER_SIZE: usize = 2;

pub const DEFAULT_TOP_K: usize = 10;

/// Chunk cap, in characters, of models with a window of 512 tokens.
pub const CAP_E5: usize = 1400;

/// Chunk cap, in characters, of models with a window of about 8000 tokens.
pub const CAP_LARGE: usize = 32000;

/// The note shown where no config is found.
pub const NO_CONFIG_NOTE: &'static str =
    "no config at sai-cfg.yml — using built-in defaults (only hard dirs pruned). Run `semanticastindexer init` to generate one.";

/// Config values. Every one is optional.
pub struct Config {
    pub backend: Option<String>,
    /// How this config's backend embeds.
    pub embedder: Option<String>,
    pub chunker: Option<String>,
    pub max_chunk_chars: Option<usize>,
    pub prefix_style: Option<String>,
    pub collection: Option<String>,
    pub model: Option<String>,
    pub vector_dim: Option<u64>,
    pub exclude_dirs: Vec<String>,
    /// Allow-list patterns. Without any, every file is admitted.
    pub include_globs: Vec<String>,
    pub exclude: Vec<String>,
    pub skip_generated_marker: bool,
    pub strip_comments: Option<bool>,
    pub honor_noindex_marker: Option<bool>,
    pub honor_noduplicate_marker: Option<bool>,
    pub duckdb: DuckDbConfig,
    pub ollama: OllamaConfig,
    pub qdrant: QdrantConfig,
    pub similarity: SimilarityConfig,
    pub logging: LoggingConfig,
}

/// Thresholds of the similarity searches.
pub struct SimilarityConfig {
    pub find_similar_min_score: Option<Score>,
    pub duplicate_min_score: Option<Score>,
    pub duplicate_min_cluster_size: Option<usize>,
    pub top_k: Option<usize>,
}

/// Settings of the DuckDB backend.
pub struct DuckDbConfig {
    pub path: Option<String>,
    pub model_cache: Option<String>,
    pub model_repo: Option<String>,
}

/// Settings of the Ollama embedder.
pub struct OllamaConfig {
    pub url: Option<String>,
    pub model: Option<String>,
}

/// Settings of the Qdrant backend.
pub struct QdrantConfig {
    pub url: Option<String>,
}

/// Settings of the diagnostics.
pub struct LoggingConfig {
    pub level: Option<String>,
    pub format: Option<String>,
    pub timing: Option<bool>,
}

impl Config {
    /// A config that sets nothing.
    pub open spec fn unset(&self) -> bool {
        &&& self.backend is None
        &&& self.embedder is None
        &&& self.chunker is None
        &&& self.max_chunk_chars is None
        &&& self.prefix_style is None
        &&& self.collection is None
        &&& self.model is None
        &&& self.vector_dim is None
        &&& self.exclude_dirs@.len() == 0
        &&& self.include_globs@.len() == 0
        &&& self.exclude@.len() == 0
        &&& !self.skip_generated_marker
        &&& self.strip_comments is None
        &&& self.honor_noindex_marker is None
        &&& self.honor_noduplicate_marker is None
        &&& self.duckdb.path is None
        &&& self.duckdb.model_cache is None
        &&& self.duckdb.model_repo is None
        &&& self.ollama.url is None
        &&& self.ollama.model is None
        &&& self.qdrant.url is None
        &&& self.similarity.find_similar_min_score is None
        &&& self.similarity.duplicate_min_score is None
        &&& self.similarity.duplicate_min_cluster_size is None
        &&& self.similarity.top_k is None
        &&& self.logging.level is None
        &&& self.logging.format is None
        &&& self.logging.timing is None
    }
}

impl Default for Config {
    fn default() -> (r: Config)
        ensures
            r.unset(),
    {
        Config {
            backend: None,
            embedder: None,
            chunker: None,
            max_chunk_chars: None,
            prefix_style: None,
            collection: None,
            model: None,
            vector_dim: None,
            exclude_dirs: Vec::new(),
            include_globs: Vec::new(),
            exclude: Vec::new(),
            skip_generated_marker: false,
            strip_comments: None,
            honor_noindex_marker: None,
            honor_noduplicate_marker: None,
            duckdb: DuckDbConfig { path: None, model_cache: None, model_repo: None },
            ollama: OllamaConfig { url: None, model: None },
            qdrant: QdrantConfig { url: None },
            similarity: SimilarityConfig {
                find_similar_min_score: None,
                duplicate_min_score: None,
                duplicate_min_cluster_size: None,
                top_k: None,
            },
            logging: LoggingConfig { level: None, format: None, timing: None },
        }
    }
}

/// Why flags and config do not resolve into a plan.
#[derive(Debug)]
pub enum ConfigError {
    /// The config file that a flag names does not exist.
    NotFound { path: String },
    /// A pattern does not parse, for this reason.
    BadGlob { label: &'static str, pattern: String, reason: String },
    /// The patterns of a list do not compile together, for this reason.
    GlobList { label: &'static str, reason: String },
    /// Server-side inference was asked of a backend that has none.
    ServerEmbedder,
    /// The config names an unknown prefix style.
    PrefixStyle(UnknownPrefixStyle),
}

impl ConfigError {
    /// The text of the error.
    pub open spec fn told(&self) -> Seq<char> {
        match self {
            ConfigError::NotFound { path } => "config file not found: "@ + path@,
            ConfigError::BadGlob { label, pattern, .. } => "bad "@ + label@ + " glob: "@ + pattern@,
            ConfigError::GlobList { label, .. } => "failed to compile "@ + label@ + " globs"@,
            ConfigError::ServerEmbedder =>
                "embedder 'qdrant' (server-side inference) is only valid with backend: qdrant"@,
            ConfigError::PrefixStyle(e) => "unknown prefix_style '"@ + e.name@
                + "' (expected 'e5', 'qwen', or 'none')"@,
        }
    }

    /// What the error goes back to, where another crate refused a pattern.
    pub fn cause(&self) -> (r: Option<&String>)
        ensures
            match *self {
                ConfigError::BadGlob { reason, .. } => r == Some(&reason),
                ConfigError::GlobList { reason, .. } => r == Some(&reason),
                _ => r is None,
            },
    {
        match self {
            ConfigError::BadGlob { reason, .. } => Some(reason),
            ConfigError::GlobList { reason, .. } => Some(reason),
            _ => None,
        }
    }

    /// What to tell the user.
    pub fn message(&self) -> (r: String)
        ensures
            r@ == self.told(),
    {
        match self {
            ConfigError::NotFound { path } => "config file not found: ".to_string().concat(path.as_str()),
            ConfigError::BadGlob { label, pattern, .. } => "bad ".to_string().concat(label).concat(" glob: ").concat(
                pattern.as_str(),
            ),
            ConfigError::GlobList { label, .. } => "failed to compile ".to_string().concat(label).concat(" globs"),
            ConfigError::ServerEmbedder =>
                "embedder 'qdrant' (server-side inference) is only valid with backend: qdrant".to_string(),
            ConfigError::PrefixStyle(e) => e.message(),
        }
    }
}

/// The extensions with a grammar, for which syntax-aware chunking is preferred.
pub open spec fn ast_preferred(ext: Seq<char>) -> bool {
    let e = text::lower(ext);
    e == text::lower("ts"@) || e == text::lower("tsx"@) || e == text::lower("rs"@) || e == text::lower("go"@) || e
        == text::lower("py"@)
}

/// Whether two texts are equal up to the case of ASCII letters.
fn same_ignoring_case(a: &str, b: &str) -> (r: bool)
    ensures
        r == (text::lower(a@) == text::lower(b@)),
{
    text::same(text::to_lower(a).as_str(), text::to_lower(b).as_str())
}

/// Whether any of the extensions has a grammar.
pub fn ast_preferred_for_exts(exts: &Vec<String>) -> (r: bool)
    ensures
        r == exists|i: int| 0 <= i < exts@.len() && ast_preferred((#[trigger] exts@[i])@),
{
    let mut i: usize = 0;
    while i < exts.len()
        invariant
            i <= exts@.len(),
            forall|j: int| 0 <= j < i ==> !ast_preferred((#[trigger] exts@[j])@),
        decreases exts@.len() - i,
    {
        let e = exts[i].as_str();
        if same_ignoring_case(e, "ts") || same_ignoring_case(e, "tsx") || same_ignoring_case(e, "rs")
            || same_ignoring_case(e, "go") || same_ignoring_case(e, "py") {
            assert(ast_preferred(exts@[i as int]@));
            return true;
        }
        i += 1;
    }
    false
}

/// The chunk cap of a model: large for Qwen and Jina models and for Ollama models stored in DuckDB,
/// small otherwise. A name that holds both `qwen` and `e5` gets the large one.
pub open spec fn cap_of(backend: Seq<char>, embedder: Seq<char>, model: Seq<char>) -> usize {
    let m = text::lower(model);
    if text::has(m, "qwen"@) {
        CAP_LARGE
    } else if text::has(m, "e5"@) {
        CAP_E5
    } else if text::has(m, "jina"@) {
        CAP_LARGE
    } else if backend == "duckdb"@ && embedder == "ollama"@ {
        CAP_LARGE
    } else {
        CAP_E5
    }
}

/// The default chunk cap.
pub fn default_cap(backend: &str, embedder: &str, model: &str) -> (r: usize)
    ensures
        r == cap_of(backend@, embedder@, model@),
{
    let m = text::to_lower(model);
    if text::contains(m.as_str(), "qwen") {
        return CAP_LARGE;
    }
    if text::contains(m.as_str(), "e5") {
        return CAP_E5;
    }
    if text::contains(m.as_str(), "jina") {
        return CAP_LARGE;
    }
    if text::same(backend, "duckdb") && text::same(embedder, "ollama") {
        CAP_LARGE
    } else {
        CAP_E5
    }
}

/// Whether a list of patterns compiles.
pub open spec fn globs_usable(patterns: Seq<String>) -> bool {
    globs::all_parse(text::views(patterns)) && globs::globs_compile(text::views(patterns))
}

/// Whether an error is the one that a list of patterns calls for.
pub open spec fn glob_error(patterns: Seq<String>, label: Seq<char>, e: ConfigError) -> bool {
    match e {
        ConfigError::BadGlob { label: l, pattern, reason } => {
            &&& l@ == label
            &&& exists|i: int|
                #[trigger] globs::first_unparsed(text::views(patterns), i) && pattern@ == patterns[i]@
            &&& globs::glob_fault(pattern@) == Some(reason@)
        },
        ConfigError::GlobList { label: l, .. } => {
            &&& l@ == label
            &&& globs::all_parse(text::views(patterns))
            &&& !globs::globs_compile(text::views(patterns))
        },
        _ => false,
    }
}

/// Compiles a list of patterns. `label` names the list in errors.
pub fn build_globset(patterns: &Vec<String>, label: &'static str) -> (r: Result<GlobSet, ConfigError>)
    requires
        globs::indexable(text::views(patterns@)),
    ensures
        r matches Ok(set) ==> globs::set_globs(set) == text::views(patterns@),
        r is Ok <==> globs_usable(patterns@),
        r matches Err(e) ==> glob_error(patterns@, label@, e),
        patterns@.len() == 0 ==> r is Ok,
{
    match globs::compile_globs(patterns) {
        Ok(set) => Ok(set),
        Err(GlobFault::Pattern { at, reason }) => {
            assert(globs::first_unparsed(text::views(patterns@), at as int));
            Err(ConfigError::BadGlob { label, pattern: patterns[at].clone(), reason })
        },
        Err(GlobFault::Together { reason }) => Err(ConfigError::GlobList { label, reason }),
    }
}

/// The directories that are pruned whatever the config says.
pub open spec fn hard_prune() -> Seq<Seq<char>> {
    seq![
        "node_modules"@,
        ".git"@,
        "dist"@,
        "build"@,
        "target"@,
        ".next"@,
        "coverage"@,
        ".turbo"@,
    ]
}

/// Adds `dir` to a list of different texts, unless it is there.
fn add_dir(dirs: &mut Vec<String>, dir: &str)
    requires
        text::views(old(dirs)@).no_duplicates(),
    ensures
        text::views(final(dirs)@).no_duplicates(),
        forall|d: Seq<char>|
            #[trigger] text::views(final(dirs)@).contains(d) <==> (text::views(old(dirs)@).contains(d) || d == dir@),
{
    if !text::one_of(dir, dirs) {
        let ghost before = text::views(dirs@);
        dirs.push(dir.to_string());
        let ghost after = text::views(dirs@);
        proof {
            assert(after =~= before.push(dir@));
            assert forall|d: Seq<char>| #[trigger] after.contains(d) <==> (before.contains(d) || d == dir@) by {
                if before.contains(d) {
                    let i = choose|i: int| 0 <= i < before.len() && before[i] == d;
                    assert(after[i] == d);
                }
                if d == dir@ {
                    assert(after[before.len() as int] == d);
                }
            }
            assert forall|i: int, j: int| 0 <= i < after.len() && 0 <= j < after.len() && i != j implies after[i]
                != after[j] by {
                if i == before.len() {
                    assert(before.contains(before[j]));
                } else if j == before.len() {
                    assert(before.contains(before[i]));
                }
            }
        }
    }
}

/// The directories to prune: the fixed ones and the configured ones, each once.
fn pruned_dirs(configured: &Vec<String>) -> (r: Vec<String>)
    ensures
        text::views(r@).no_duplicates(),
        forall|d: Seq<char>|
            #[trigger] text::views(r@).contains(d) <==> (hard_prune().contains(d) || text::views(configured@).contains(
                d,
            )),
{
    let mut dirs: Vec<String> = Vec::new();
    assert(text::views(dirs@) =~= Seq::<Seq<char>>::empty());
    add_dir(&mut dirs, "node_modules");
    add_dir(&mut dirs, ".git");
    add_dir(&mut dirs, "dist");
    add_dir(&mut dirs, "build");
    add_dir(&mut dirs, "target");
    add_dir(&mut dirs, ".next");
    add_dir(&mut dirs, "coverage");
    add_dir(&mut dirs, ".turbo");
    let ghost fixed = hard_prune();
    proof {
        assert forall|d: Seq<char>| #[trigger] text::views(dirs@).contains(d) <==> fixed.contains(d) by {
            if d == fixed[0] || d == fixed[1] || d == fixed[2] || d == fixed[3] || d == fixed[4] || d == fixed[5]
                || d == fixed[6] || d == fixed[7] {
                assert(fixed.contains(d));
            }
        }
    }
    let mut i: usize = 0;
    let ghost more = text::views(configured@);
    while i < configured.len()
        invariant
            i <= configured@.len(),
            more == text::views(configured@),
            fixed == hard_prune(),
            text::views(dirs@).no_duplicates(),
            forall|d: Seq<char>|
                #[trigger] text::views(dirs@).contains(d) <==> (fixed.contains(d) || more.take(i as int).contains(d)),
        decreases configured@.len() - i,
    {
        let ghost before = text::views(dirs@);
        add_dir(&mut dirs, configured[i].as_str());
        proof {
            let front = more.take(i as int);
            let longer = more.take(i + 1);
            assert(longer =~= front.push(more[i as int]));
            assert forall|d: Seq<char>| #[trigger] text::views(dirs@).contains(d) <==> (fixed.contains(d)
                || longer.contains(d)) by {
                assert(before.contains(d) <==> (fixed.contains(d) || front.contains(d)));
                if front.contains(d) {
                    let k = choose|k: int| 0 <= k < front.len() && front[k] == d;
                    assert(longer[k] == d);
                }
                if d == more[i as int] {
                    assert(longer[i as int] == d);
                }
                if longer.contains(d) {
                    let k = choose|k: int| 0 <= k < longer.len() && longer[k] == d;
                    if k < i {
                        assert(front[k] == d);
                    }
                }
            }
        }
        i += 1;
    }
    assert(more.take(i as int) =~= more);
    dirs
}

/// The first of two optional texts that is there, or the default.
pub open spec fn picked(first: Option<String>, second: Option<String>, default: Seq<char>) -> Seq<char> {
    match first {
        Some(s) => s@,
        None => match second {
            Some(s) => s@,
            None => default,
        },
    }
}

fn pick(first: &Option<String>, second: &Option<String>, default: &str) -> (r: String)
    ensures
        r@ == picked(*first, *second, default@),
{
    match first {
        Some(s) => s.clone(),
        None => match second {
            Some(s) => s.clone(),
            None => default.to_string(),
        },
    }
}

/// The config's embedder, unless the config speaks of another backend.
pub open spec fn scoped_embedder(config: Config, backend: Seq<char>) -> Option<String> {
    match config.backend {
        Some(b) => if b@ == backend {
            config.embedder
        } else {
            None
        },
        None => config.embedder,
    }
}

/// The backend: flag, config, or the default.
pub open spec fn backend_of(args: Args, config: Config, default: Seq<char>) -> Seq<char> {
    picked(args.backend, config.backend, default)
}

/// The embedder: flag, the config's where it speaks of this backend, or the backend's own default.
pub open spec fn embedder_of(args: Args, config: Config, backend: Seq<char>) -> Seq<char> {
    picked(
        args.embedder,
        scoped_embedder(config, backend),
        if backend == "qdrant"@ {
            "qdrant"@
        } else {
            DEFAULT_EMBEDDER@
        },
    )
}

/// The model: flag, config, or the embedder's default.
pub open spec fn model_of(args: Args, config: Config, embedder: Seq<char>) -> Seq<char> {
    picked(
        args.model,
        config.model,
        if embedder == "ort"@ {
            DEFAULT_ORT_MODEL@
        } else {
            DEFAULT_MODEL@
        },
    )
}

/// Whether the backend has the embedder, and the config names no unknown prefix style.
pub open spec fn consistent(args: Args, config: Config, default: Seq<char>) -> bool {
    let backend = backend_of(args, config, default);
    &&& !(embedder_of(args, config, backend) == "qdrant"@ && backend != "qdrant"@)
    &&& config.prefix_style matches Some(s) ==> embedding::named_style(s@) is Some
}

/// Whether flags and config resolve.
pub open spec fn resolvable(args: Args, config: Config, default: Seq<char>) -> bool {
    &&& globs_usable(config.exclude@)
    &&& globs_usable(config.include_globs@)
    &&& consistent(args, config, default)
}

/// Whether an error is the one that flags and config call for: the first of bad exclude patterns,
/// bad allow-list patterns, an embedder that the backend does not have, an unknown prefix style.
pub open spec fn plan_error(args: Args, config: Config, default: Seq<char>, e: ConfigError) -> bool {
    let backend = backend_of(args, config, default);
    if !globs_usable(config.exclude@) {
        glob_error(config.exclude@, "exclude"@, e)
    } else if !globs_usable(config.include_globs@) {
        glob_error(config.include_globs@, "include"@, e)
    } else if embedder_of(args, config, backend) == "qdrant"@ && backend != "qdrant"@ {
        e is ServerEmbedder
    } else {
        &&& config.prefix_style matches Some(s)
        &&& embedding::named_style(s@) is None
        &&& e matches ConfigError::PrefixStyle(u)
        &&& u.name@ == text::lower(s@)
    }
}

/// The chunker: flag, config, or `ast` where it is built in and some extension has a grammar, or
/// `lines`.
pub open spec fn chunker_of(args: Args, config: Config, ast: bool, ext: Seq<String>) -> Seq<char> {
    picked(
        args.chunker,
        config.chunker,
        if ast && exists|i: int| 0 <= i < ext.len() && ast_preferred((#[trigger] ext[i])@) {
            "ast"@
        } else {
            DEFAULT_CHUNKER@
        },
    )
}

/// Whether `p` is the plan that flags and config resolve into.
pub open spec fn is_plan(p: Plan, args: Args, config: Config, default: Seq<char>, ast: bool) -> bool {
    let backend = backend_of(args, config, default);
    let embedder = embedder_of(args, config, backend);
    let model = model_of(args, config, embedder);
    let ort = embedder == "ort"@;
    &&& p.root@ == args.root@
    &&& text::views(p.ext@) == text::views(args.ext@).map_values(|e: Seq<char>| text::strip_front(e, '.'))
    &&& p.backend@ == backend
    &&& p.embedder@ == embedder
    &&& p.chunker@ == chunker_of(args, config, ast, p.ext@)
    &&& p.max_chunk_chars == (match config.max_chunk_chars {
        Some(n) => n,
        None => cap_of(backend, embedder, model),
    })
    &&& p.prefix_style == (match config.prefix_style {
        Some(s) => embedding::named_style(s@)->0,
        None => embedding::style_of_model(model),
    })
    &&& p.collection@ == picked(args.collection, config.collection, DEFAULT_COLLECTION@)
    &&& p.model@ == model
    &&& p.vector_dim == (match config.vector_dim {
        Some(n) => n,
        None => if ort {
            DEFAULT_ORT_VECTOR_DIM
        } else {
            DEFAULT_VECTOR_DIM
        },
    })
    &&& p.qdrant_url == config.qdrant.url
    &&& p.duckdb_path@ == picked(config.duckdb.path, None, DEFAULT_DUCKDB_PATH@)
    &&& p.duckdb_model_cache == config.duckdb.model_cache
    &&& p.model_repo@ == picked(
        config.duckdb.model_repo,
        None,
        if ort {
            DEFAULT_ORT_MODEL_REPO@
        } else {
            DEFAULT_MODEL_REPO@
        },
    )
    &&& p.ollama_url@ == picked(config.ollama.url, None, DEFAULT_OLLAMA_URL@)
    &&& p.ollama_model matches Some(m) && m@ == picked(config.ollama.model, None, DEFAULT_OLLAMA_MODEL@)
    &&& text::views(p.exclude_dirs@).no_duplicates()
    &&& forall|d: Seq<char>|
        #[trigger] text::views(p.exclude_dirs@).contains(d) <==> (hard_prune().contains(d) || text::views(
            config.exclude_dirs@,
        ).contains(d))
    &&& globs::set_globs(p.include_globs) == text::views(config.include_globs@)
    &&& p.include_active == (config.include_globs@.len() > 0)
    &&& globs::set_globs(p.exclude) == text::views(config.exclude@)
    &&& p.skip_generated == config.skip_generated_marker
    &&& p.strip_comments == (config.strip_comments != Some(false))
    &&& p.honor_noindex_marker == (config.honor_noindex_marker != Some(false))
    &&& p.honor_noduplicate_marker == (config.honor_noduplicate_marker != Some(false))
    &&& p.limit == args.limit
    &&& p.find_similar_min_score == (match config.similarity.find_similar_min_score {
        Some(s) => s,
        None => Score { bits: DEFAULT_FIND_SIMILAR_MIN_SCORE },
    })
    &&& p.duplicate_min_score == (match config.similarity.duplicate_min_score {
        Some(s) => s,
        None => Score { bits: DEFAULT_DUPLICATE_MIN_SCORE },
    })
    &&& p.duplicate_min_cluster_size == (match config.similarity.duplicate_min_cluster_size {
        Some(n) => n,
        None => DEFAULT_DUPLICATE_MIN_CLUSTER_SIZE,
    })
    &&& p.top_k == (match config.similarity.top_k {
        Some(n) => n,
        None => DEFAULT_TOP_K,
    })
}

/// Whether `r` is what flags and config resolve into: the plan where they resolve, else the error that
/// they call for.
pub open spec fn resolves(
    args: Args,
    config: Config,
    default: Seq<char>,
    ast: bool,
    r: Result<Plan, ConfigError>,
) -> bool {
    &&& r is Ok <==> resolvable(args, config, default)
    &&& r matches Ok(p) ==> is_plan(p, args, config, default, ast)
    &&& r matches Err(e) ==> plan_error(args, config, default, e)
}

/// The extensions without leading dots.
fn bare_exts(exts: &Vec<String>) -> (r: Vec<String>)
    ensures
        text::views(r@) == text::views(exts@).map_values(|e: Seq<char>| text::strip_front(e, '.')),
{
    let mut out: Vec<String> = Vec::new();
    let mut i: usize = 0;
    while i < exts.len()
        invariant
            i <= exts@.len(),
            out@.len() == i,
            forall|k: int| 0 <= k < i ==> (#[trigger] out@[k])@ == text::strip_front(exts@[k]@, '.'),
        decreases exts@.len() - i,
    {
        out.push(text::trim_front(exts[i].as_str(), '.'));
        i += 1;
    }
    assert(text::views(out@) =~= text::views(exts@).map_values(|e: Seq<char>| text::strip_front(e, '.')));
    out
}

fn or_true(v: Option<bool>) -> (r: bool)
    ensures
        r == (v != Some(false)),
{
    match v {
        Some(b) => b,
        None => true,
    }
}

/// Resolves flags and config. A flag wins over the config, and the config over the defaults;
/// `backend_default` is the backend where neither names one, and `ast` tells whether syntax-aware
/// chunking is built in.
pub fn build_plan_with_defaults(args: &Args, config: &Config, backend_default: &str, ast: bool) -> (r: Result<
    Plan,
    ConfigError,
>)
    requires
        globs::indexable(text::views(config.exclude@)),
        globs::indexable(text::views(config.include_globs@)),
    ensures
        resolves(*args, *config, backend_default@, ast, r),
        config.exclude@.len() == 0 && config.include_globs@.len() == 0 ==> (r is Ok <==> consistent(
            *args,
            *config,
            backend_default@,
        )),
{
    let exclude = match build_globset(&config.exclude, "exclude") {
        Ok(set) => set,
        Err(e) => {
            return Err(e);
        },
    };
    let include_globs = match build_globset(&config.include_globs, "include") {
        Ok(set) => set,
        Err(e) => {
            return Err(e);
        },
    };
    let exclude_dirs = pruned_dirs(&config.exclude_dirs);
    let backend = pick(&args.backend, &config.backend, backend_default);
    let applies = match &config.backend {
        Some(b) => text::same(b.as_str(), backend.as_str()),
        None => true,
    };
    let scoped = if applies {
        copy_text(&config.embedder)
    } else {
        None
    };
    let server = text::same(backend.as_str(), "qdrant");
    let embedder = pick(
        &args.embedder,
        &scoped,
        if server {
            "qdrant"
        } else {
            DEFAULT_EMBEDDER
        },
    );
    if text::same(embedder.as_str(), "qdrant") && !server {
        return Err(ConfigError::ServerEmbedder);
    }
    let ort = text::same(embedder.as_str(), "ort");
    let model = pick(
        &args.model,
        &config.model,
        if ort {
            DEFAULT_ORT_MODEL
        } else {
            DEFAULT_MODEL
        },
    );
    let prefix_style = match &config.prefix_style {
        Some(s) => match PrefixStyle::parse(s.as_str()) {
            Ok(style) => style,
            Err(e) => {
                return Err(ConfigError::PrefixStyle(e));
            },
        },
        None => PrefixStyle::detect(model.as_str()),
    };
    let max_chunk_chars = match config.max_chunk_chars {
        Some(n) => n,
        None => default_cap(backend.as_str(), embedder.as_str(), model.as_str()),
    };
    let ext = bare_exts(&args.ext);
    let chunker = pick(
        &args.chunker,
        &config.chunker,
        if ast && ast_preferred_for_exts(&ext) {
            "ast"
        } else {
            DEFAULT_CHUNKER
        },
    );
    Ok(
        Plan {
            root: args.root.clone(),
            chunker,
            ext,
            max_chunk_chars,
            prefix_style,
            collection: pick(&args.collection, &config.collection, DEFAULT_COLLECTION),
            vector_dim: match config.vector_dim {
                Some(n) => n,
                None => if ort {
                    DEFAULT_ORT_VECTOR_DIM
                } else {
                    DEFAULT_VECTOR_DIM
                },
            },
            qdrant_url: copy_text(&config.qdrant.url),
            duckdb_path: pick(&config.duckdb.path, &None, DEFAULT_DUCKDB_PATH),
            duckdb_model_cache: copy_text(&config.duckdb.model_cache),
            model_repo: pick(
                &config.duckdb.model_repo,
                &None,
                if ort {
                    DEFAULT_ORT_MODEL_REPO
                } else {
                    DEFAULT_MODEL_REPO
                },
            ),
            ollama_url: pick(&config.ollama.url, &None, DEFAULT_OLLAMA_URL),
            ollama_model: Some(pick(&config.ollama.model, &None, DEFAULT_OLLAMA_MODEL)),
            exclude_dirs,
            include_globs,
            include_active: config.include_globs.len() > 0,
            exclude,
            skip_generated: config.skip_generated_marker,
            strip_comments: or_true(config.strip_comments),
            honor_noindex_marker: or_true(config.honor_noindex_marker),
            honor_noduplicate_marker: or_true(config.honor_noduplicate_marker),
            limit: args.limit,
            find_similar_min_score: match config.similarity.find_similar_min_score {
                Some(s) => s,
                None => Score { bits: DEFAULT_FIND_SIMILAR_MIN_SCORE },
            },
            duplicate_min_score: match config.similarity.duplicate_min_score {
                Some(s) => s,
                None => Score { bits: DEFAULT_DUPLICATE_MIN_SCORE },
            },
            duplicate_min_cluster_size: match config.similarity.duplicate_min_cluster_size {
                Some(n) => n,
                None => DEFAULT_DUPLICATE_MIN_CLUSTER_SIZE,
            },
            top_k: match config.similarity.top_k {
                Some(n) => n,
                None => DEFAULT_TOP_K,
            },
            backend,
            embedder,
            model,
        },
    )
}

/// Resolves flags and config for the command line, where the backend defaults to Qdrant.
pub fn build_plan(args: &Args, config: &Config, ast: bool) -> (r: Result<Plan, ConfigError>)
    requires
        globs::indexable(text::views(config.exclude@)),
        globs::indexable(text::views(config.include_globs@)),
    ensures
        resolves(*args, *config, DEFAULT_BACKEND@, ast, r),
        config.exclude@.len() == 0 && config.include_globs@.len() == 0 ==> (r is Ok <==> consistent(
            *args,
            *config,
            DEFAULT_BACKEND@,
        )),
{
    build_plan_with_defaults(args, config, DEFAULT_BACKEND, ast)
}

/// Resolves flags and config for the MCP server, where the backend defaults to DuckDB.
pub fn build_mcp_plan(args: &Args, config: &Config, ast: bool) -> (r: Result<Plan, ConfigError>)
    requires
        globs::indexable(text::views(config.exclude@)),
        globs::indexable(text::views(config.include_globs@)),
    ensures
        resolves(*args, *config, MCP_DEFAULT_BACKEND@, ast, r),
        config.exclude@.len() == 0 && config.include_globs@.len() == 0 ==> (r is Ok <==> consistent(
            *args,
            *config,
            MCP_DEFAULT_BACKEND@,
        )),
{
    build_plan_with_defaults(args, config, MCP_DEFAULT_BACKEND, ast)
}

/// Whether the matcher can take the patterns of a config.
pub fn patterns_indexable(config: &Config) -> (r: bool)
    ensures
        r == (globs::indexable(text::views(config.exclude@)) && globs::indexable(text::views(config.include_globs@))),
{
    globs::is_indexable(&config.exclude) && globs::is_indexable(&config.include_globs)
}

/// The path of `name` in the directory `dir`.
pub open spec fn path_in(dir: Seq<char>, name: Seq<char>) -> Seq<char> {
    if dir.len() == 0 || dir.last() == '/' {
        dir + name
    } else {
        dir + "/"@ + name
    }
}

fn join_path(dir: &str, name: &str) -> (r: String)
    ensures
        r@ == path_in(dir@, name@),
{
    let d = text::chars_of(dir);
    if d.len() == 0 || d[d.len() - 1] == '/' {
        dir.to_string().concat(name)
    } else {
        dir.to_string().concat("/").concat(name)
    }
}

/// The config filename to take from a directory that holds these files: the standard one, its other
/// spelling, or the one of earlier releases.
pub open spec fn default_name(files: Seq<Seq<char>>) -> Option<Seq<char>> {
    if files.contains(DEFAULT_CONFIG@) {
        Some(DEFAULT_CONFIG@)
    } else if files.contains(DEFAULT_CONFIG_YAML@) {
        Some(DEFAULT_CONFIG_YAML@)
    } else if files.contains(LEGACY_CONFIG@) {
        Some(LEGACY_CONFIG@)
    } else {
        None
    }
}

/// The config file to take from `dir`, where `files` names the regular files in it.
pub fn resolve_default_config(dir: &str, files: &Vec<String>) -> (r: Option<String>)
    ensures
        match r {
            Some(p) => default_name(text::views(files@)) matches Some(name) && p@ == path_in(dir@, name),
            None => default_name(text::views(files@)) is None,
        },
{
    if text::one_of(DEFAULT_CONFIG, files) {
        Some(join_path(dir, DEFAULT_CONFIG))
    } else if text::one_of(DEFAULT_CONFIG_YAML, files) {
        Some(join_path(dir, DEFAULT_CONFIG_YAML))
    } else if text::one_of(LEGACY_CONFIG, files) {
        Some(join_path(dir, LEGACY_CONFIG))
    } else {
        None
    }
}

/// Whether `p` is a standard config name without a directory part.
pub open spec fn bare_default_name(p: Seq<char>) -> bool {
    p == DEFAULT_CONFIG@ || p == DEFAULT_CONFIG_YAML@
}

/// Whether `p` is a standard config name without a directory part. Such a file may be absent.
pub fn is_bare_default_config_name(p: &str) -> (r: bool)
    ensures
        r == bare_default_name(p@),
{
    text::same(p, DEFAULT_CONFIG) || text::same(p, DEFAULT_CONFIG_YAML)
}

/// Where the config values come from.
#[derive(Debug)]
pub enum ConfigSource {
    /// This file.
    File(String),
    /// The built-in defaults, with [`NO_CONFIG_NOTE`].
    Builtin,
}

/// Where the config values come from. `present` tells whether the file that the flag names exists,
/// and `found` is what [`resolve_default_config`] found in the working directory.
pub fn load_config(args: &Args, present: bool, found: Option<String>) -> (r: Result<ConfigSource, ConfigError>)
    ensures
        match args.config {
            Some(p) => if present {
                r matches Ok(ConfigSource::File(f)) && f@ == p@
            } else if bare_default_name(p@) {
                r matches Ok(ConfigSource::Builtin)
            } else {
                r matches Err(ConfigError::NotFound { path }) && path@ == p@
            },
            None => match found {
                Some(p) => r matches Ok(ConfigSource::File(f)) && f@ == p@,
                None => r matches Ok(ConfigSource::Builtin),
            },
        },
{
    match &args.config {
        Some(p) => if present {
            Ok(ConfigSource::File(p.clone()))
        } else if is_bare_default_config_name(p.as_str()) {
            Ok(ConfigSource::Builtin)
        } else {
            Err(ConfigError::NotFound { path: p.clone() })
        },
        None => match found {
            Some(p) => Ok(ConfigSource::File(p)),
            None => Ok(ConfigSource::Builtin),
        },
    }
}

/// An embedder that the config gives for one backend does not carry over to another: where the
/// config names a different backend, its embedder does not matter.
pub proof fn law_embedder_does_not_leak(args: Args, config: Config, other: Config, default: Seq<char>)
    requires
        config.backend matches Some(b) && b@ != backend_of(args, config, default),
        other.backend == config.backend,
    ensures
        embedder_of(args, config, backend_of(args, config, default)) == embedder_of(
            args,
            other,
            backend_of(args, other, default),
        ),
{
}

/// A flag wins over the config, whatever the config holds.
pub proof fn law_flags_win(args: Args, config: Config, default: Seq<char>, p: Plan, ast: bool)
    requires
        is_plan(p, args, config, default, ast),
    ensures
        args.backend matches Some(b) ==> p.backend@ == b@,
        args.embedder matches Some(e) ==> p.embedder@ == e@,
        args.model matches Some(m) ==> p.model@ == m@,
        args.collection matches Some(c) ==> p.collection@ == c@,
        args.chunker matches Some(c) ==> p.chunker@ == c@,
{
}

/// Server-side inference is planned for the Qdrant backend only.
pub proof fn law_server_inference_needs_qdrant(args: Args, config: Config, default: Seq<char>, p: Plan, ast: bool)
    requires
        resolvable(args, config, default),
        is_plan(p, args, config, default, ast),
    ensures
        p.embedder@ == "qdrant"@ ==> p.backend@ == "qdrant"@,
{
}

/// Where neither flag nor config names a backend, the command line works with Qdrant and the MCP server
/// with DuckDB; where neither names an embedder either, the first embeds on the Qdrant server and the
/// second on this machine.
pub proof fn law_unset_defaults(args: Args, config: Config, p: Plan, m: Plan, ast: bool)
    requires
        args.backend is None,
        config.backend is None,
        is_plan(p, args, config, DEFAULT_BACKEND@, ast),
        is_plan(m, args, config, MCP_DEFAULT_BACKEND@, ast),
    ensures
        p.backend@ == "qdrant"@,
        m.backend@ == "duckdb"@,
        args.embedder is None && config.embedder is None ==> {
            &&& p.embedder@ == "qdrant"@ && !p.embeds_locally()
            &&& m.embedder@ == "ort"@ && m.embeds_locally()
        },
{
    reveal_strlit("qdrant");
    reveal_strlit("duckdb");
    reveal_strlit("ort");
    reveal_strlit("ollama");
    assert("qdrant"@[0] == 'q' && "duckdb"@[0] == 'd' && "ort"@.len() == 3 && "ollama"@[0] == 'o');
}

/// Whether two plans say the same. The directories that are pruned are a set.
pub open spec fn same_plan(a: Plan, b: Plan) -> bool {
    &&& a.root@ == b.root@
    &&& text::views(a.ext@) == text::views(b.ext@)
    &&& a.backend@ == b.backend@
    &&& a.embedder@ == b.embedder@
    &&& a.chunker@ == b.chunker@
    &&& a.max_chunk_chars == b.max_chunk_chars
    &&& a.prefix_style == b.prefix_style
    &&& a.collection@ == b.collection@
    &&& a.model@ == b.model@
    &&& a.vector_dim == b.vector_dim
    &&& a.qdrant_url == b.qdrant_url
    &&& a.duckdb_path@ == b.duckdb_path@
    &&& a.duckdb_model_cache == b.duckdb_model_cache
    &&& a.model_repo@ == b.model_repo@
    &&& a.ollama_url@ == b.ollama_url@
    &&& a.ollama_model is Some && b.ollama_model is Some && a.ollama_model->Some_0@ == b.ollama_model->Some_0@
    &&& text::views(a.exclude_dirs@).to_set() == text::views(b.exclude_dirs@).to_set()
    &&& globs::set_globs(a.include_globs) == globs::set_globs(b.include_globs)
    &&& a.include_active == b.include_active
    &&& globs::set_globs(a.exclude) == globs::set_globs(b.exclude)
    &&& a.skip_generated == b.skip_generated
    &&& a.strip_comments == b.strip_comments
    &&& a.honor_noindex_marker == b.honor_noindex_marker
    &&& a.honor_noduplicate_marker == b.honor_noduplicate_marker
    &&& a.limit == b.limit
    &&& a.find_similar_min_score == b.find_similar_min_score
    &&& a.duplicate_min_score == b.duplicate_min_score
    &&& a.duplicate_min_cluster_size == b.duplicate_min_cluster_size
    &&& a.top_k == b.top_k
}

proof fn lemma_chunkers_agree(args: Args, config: Config, ast: bool, a: Seq<String>, b: Seq<String>)
    requires
        text::views(a) == text::views(b),
    ensures
        chunker_of(args, config, ast, a) == chunker_of(args, config, ast, b),
{
    assert(text::views(a).len() == a.len() && text::views(b).len() == b.len());
    assert forall|i: int| 0 <= i < a.len() implies #[trigger] a[i]@ == b[i]@ by {
        assert(text::views(a)[i] == text::views(b)[i]);
    }
    assert forall|i: int| 0 <= i < b.len() implies #[trigger] b[i]@ == a[i]@ by {
        assert(text::views(a)[i] == text::views(b)[i]);
    }
    if exists|i: int| 0 <= i < a.len() && ast_preferred((#[trigger] a[i])@) {
        let i = choose|i: int| 0 <= i < a.len() && ast_preferred((#[trigger] a[i])@);
        assert(ast_preferred(b[i]@));
    }
    if exists|i: int| 0 <= i < b.len() && ast_preferred((#[trigger] b[i])@) {
        let i = choose|i: int| 0 <= i < b.len() && ast_preferred((#[trigger] b[i])@);
        assert(ast_preferred(a[i]@));
    }
}

proof fn lemma_glob_errors_agree(patterns: Seq<String>, label: Seq<char>, e: ConfigError, f: ConfigError)
    requires
        glob_error(patterns, label, e),
        glob_error(patterns, label, f),
    ensures
        e.told() == f.told(),
{
    let all = text::views(patterns);
    if let ConfigError::BadGlob { label: _, pattern: p, reason: _ } = e {
        let i = choose|i: int| #[trigger] globs::first_unparsed(all, i) && p@ == patterns[i]@;
        if let ConfigError::BadGlob { label: _, pattern: q, reason: _ } = f {
            let j = choose|j: int| #[trigger] globs::first_unparsed(all, j) && q@ == patterns[j]@;
            if i < j {
                assert(globs::glob_parses(all[i]));
            } else if j < i {
                assert(globs::glob_parses(all[j]));
            }
        } else {
            assert(globs::glob_parses(all[i]));
        }
    } else if let ConfigError::BadGlob { label: _, pattern: q, reason: _ } = f {
        let j = choose|j: int| #[trigger] globs::first_unparsed(all, j) && q@ == patterns[j]@;
        assert(globs::glob_parses(all[j]));
    }
}

/// Where a flag or the config names a backend, the command line and the MCP server resolve into the
/// same plan, or fail with the same error.
pub proof fn law_plans_agree(
    args: Args,
    config: Config,
    ast: bool,
    p: Result<Plan, ConfigError>,
    m: Result<Plan, ConfigError>,
)
    requires
        args.backend is Some || config.backend is Some,
        resolves(args, config, DEFAULT_BACKEND@, ast, p),
        resolves(args, config, MCP_DEFAULT_BACKEND@, ast, m),
    ensures
        match (p, m) {
            (Ok(a), Ok(b)) => same_plan(a, b),
            (Err(e), Err(f)) => e.told() == f.told(),
            _ => false,
        },
{
    assert(backend_of(args, config, DEFAULT_BACKEND@) == backend_of(args, config, MCP_DEFAULT_BACKEND@));
    match (p, m) {
        (Ok(a), Ok(b)) => {
            lemma_chunkers_agree(args, config, ast, a.ext@, b.ext@);
            let x = text::views(a.exclude_dirs@);
            let y = text::views(b.exclude_dirs@);
            assert forall|d: Seq<char>| x.to_set().contains(d) == y.to_set().contains(d) by {
                assert(x.contains(d) == y.contains(d));
            }
            assert(x.to_set() =~= y.to_set());
        },
        (Err(e), Err(f)) => {
            if !globs_usable(config.exclude@) {
                lemma_glob_errors_agree(config.exclude@, "exclude"@, e, f);
            } else if !globs_usable(config.include_globs@) {
                lemma_glob_errors_agree(config.include_globs@, "include"@, e, f);
            }
        },
        _ => {},
    }
}

/// The fixed directories are pruned whatever the config says.
pub proof fn law_hard_prune_kept(args: Args, config: Config, default: Seq<char>, p: Plan, ast: bool, d: Seq<char>)
    requires
        is_plan(p, args, config, default, ast),
        hard_prune().contains(d),
    ensures
        text::views(p.exclude_dirs@).contains(d),
{
}

/// An exclude pattern wins over the allow-list.
pub proof fn law_exclude_wins(p: Plan, key: Seq<char>)
    requires
        globs::globs_match(globs::set_globs(p.exclude), key),
    ensures
        !p.admits(key),
{
}

/// What the config says holds where no flag says otherwise, and the defaults where neither says
/// anything.
pub proof fn law_config_then_defaults(args: Args, config: Config, default: Seq<char>, p: Plan, ast: bool)
    requires
        is_plan(p, args, config, default, ast),
    ensures
        args.backend is None ==> (config.backend matches Some(b) ==> p.backend@ == b@),
        args.backend is None && config.backend is None ==> p.backend@ == default,
        args.model is None ==> (config.model matches Some(m) ==> p.model@ == m@),
        args.model is None && config.model is None ==> p.model@ == if p.embedder@ == "ort"@ {
            "jinaai/jina-embeddings-v2-base-code"@
        } else {
            "intfloat/multilingual-e5-small"@
        },
        args.collection is None ==> (config.collection matches Some(c) ==> p.collection@ == c@),
        args.collection is None && config.collection is None ==> p.collection@ == "source_code"@,
        args.chunker is None ==> (config.chunker matches Some(c) ==> p.chunker@ == c@),
        config.vector_dim matches Some(n) ==> p.vector_dim == n,
        config.vector_dim is None ==> p.vector_dim == if p.embedder@ == "ort"@ {
            768u64
        } else {
            384u64
        },
        config.duckdb.path matches Some(s) ==> p.duckdb_path@ == s@,
        config.duckdb.path is None ==> p.duckdb_path@ == ".index/code.duckdb"@,
        config.duckdb.model_repo matches Some(s) ==> p.model_repo@ == s@,
        config.duckdb.model_repo is None ==> p.model_repo@ == if p.embedder@ == "ort"@ {
            "jinaai/jina-embeddings-v2-base-code"@
        } else {
            "Xenova/multilingual-e5-small"@
        },
        config.ollama.url matches Some(s) ==> p.ollama_url@ == s@,
        config.ollama.url is None ==> p.ollama_url@ == "http://localhost:11434"@,
        p.ollama_model is Some,
        config.ollama.model matches Some(s) ==> p.ollama_model->0@ == s@,
        config.ollama.model is None ==> p.ollama_model->0@ == "mxbai-embed-large"@,
        p.qdrant_url == config.qdrant.url,
        p.duckdb_model_cache == config.duckdb.model_cache,
        p.skip_generated == config.skip_generated_marker,
        config.strip_comments matches Some(on) ==> p.strip_comments == on,
        config.strip_comments is None ==> p.strip_comments,
        config.honor_noindex_marker matches Some(on) ==> p.honor_noindex_marker == on,
        config.honor_noindex_marker is None ==> p.honor_noindex_marker,
        config.honor_noduplicate_marker matches Some(on) ==> p.honor_noduplicate_marker == on,
        config.honor_noduplicate_marker is None ==> p.honor_noduplicate_marker,
        config.similarity.find_similar_min_score matches Some(s) ==> p.find_similar_min_score == s,
        config.similarity.find_similar_min_score is None ==> p.find_similar_min_score.bits == 0x3f59_999a,
        config.similarity.duplicate_min_score matches Some(s) ==> p.duplicate_min_score == s,
        config.similarity.duplicate_min_score is None ==> p.duplicate_min_score.bits == 0x3f6e_147b,
        config.similarity.duplicate_min_cluster_size matches Some(n) ==> p.duplicate_min_cluster_size == n,
        config.similarity.duplicate_min_cluster_size is None ==> p.duplicate_min_cluster_size == 2,
        config.similarity.top_k matches Some(n) ==> p.top_k == n,
        config.similarity.top_k is None ==> p.top_k == 10,
        p.limit == args.limit,
        p.root@ == args.root@,
{
}

/// The config's embedder counts unless the config names another backend than the plan's; without it
/// Qdrant embeds on its server, and other backends on this machine.
pub proof fn law_embedder_of_plan(args: Args, config: Config, default: Seq<char>, p: Plan, ast: bool)
    requires
        is_plan(p, args, config, default, ast),
        args.embedder is None,
    ensures
        config.embedder is Some && (config.backend is None || config.backend->0@ == p.backend@) ==> p.embedder@
            == config.embedder->0@,
        config.embedder is None || (config.backend is Some && config.backend->0@ != p.backend@) ==> p.embedder@
            == if p.backend@ == "qdrant"@ {
            "qdrant"@
        } else {
            "ort"@
        },
{
}

/// The extensions of a plan are those of the flag, in their order, without leading dots.
pub proof fn law_plan_extensions(args: Args, config: Config, default: Seq<char>, p: Plan, ast: bool, i: int) -> (n: int)
    requires
        is_plan(p, args, config, default, ast),
        0 <= i < args.ext@.len(),
    ensures
        p.ext@.len() == args.ext@.len(),
        0 <= n <= args.ext@[i]@.len(),
        p.ext@[i]@ == args.ext@[i]@.skip(n),
        forall|k: int| 0 <= k < n ==> #[trigger] args.ext@[i]@[k] == '.',
        p.ext@[i]@.len() > 0 ==> p.ext@[i]@[0] != '.',
{
    assert(text::views(p.ext@).len() == p.ext@.len());
    assert(text::views(p.ext@)[i] == p.ext@[i]@);
    text::law_strip_front(args.ext@[i]@, '.')
}

/// Where neither flag nor config names a chunker, chunking is syntax-aware exactly if that is built in
/// and one of the extensions is `ts`, `tsx`, `rs`, `go` or `py`, whatever the case; else it goes by
/// lines.
pub proof fn law_default_chunker(args: Args, config: Config, default: Seq<char>, p: Plan, ast: bool)
    requires
        is_plan(p, args, config, default, ast),
        args.chunker is None,
        config.chunker is None,
    ensures
        p.chunker@ == "ast"@ || p.chunker@ == "lines"@,
        p.chunker@ == "ast"@ <==> ast && exists|i: int|
            0 <= i < p.ext@.len() && {
                let e = text::lower((#[trigger] p.ext@[i])@);
                e == "ts"@ || e == "tsx"@ || e == "rs"@ || e == "go"@ || e == "py"@
            },
{
    reveal_strlit("ts");
    reveal_strlit("tsx");
    reveal_strlit("rs");
    reveal_strlit("go");
    reveal_strlit("py");
    reveal_strlit("ast");
    reveal_strlit("lines");
    assert("ast"@.len() == 3 && "lines"@.len() == 5);
    assert(text::lower("ts"@) =~= "ts"@);
    assert(text::lower("tsx"@) =~= "tsx"@);
    assert(text::lower("rs"@) =~= "rs"@);
    assert(text::lower("go"@) =~= "go"@);
    assert(text::lower("py"@) =~= "py"@);
    if exists|i: int| 0 <= i < p.ext@.len() && ast_preferred((#[trigger] p.ext@[i])@) {
        let i = choose|i: int| 0 <= i < p.ext@.len() && ast_preferred((#[trigger] p.ext@[i])@);
        assert(ast_preferred(p.ext@[i]@));
    }
    assert forall|i: int| 0 <= i < p.ext@.len() && {
        let e = text::lower((#[trigger] p.ext@[i])@);
        e == "ts"@ || e == "tsx"@ || e == "rs"@ || e == "go"@ || e == "py"@
    } implies ast_preferred(p.ext@[i]@) by {}
}

/// The chunk cap is the config's, or else 32000 characters for a model whose name holds `qwen`, or
/// `jina` but not `e5`, and for other models than E5 that Ollama embeds for DuckDB; 1400 for the rest.
/// The prefix style is the one that the config names, or else the model's.
pub proof fn law_plan_fits_model(args: Args, config: Config, default: Seq<char>, p: Plan, ast: bool)
    requires
        is_plan(p, args, config, default, ast),
    ensures
        config.max_chunk_chars matches Some(n) ==> p.max_chunk_chars == n,
        config.max_chunk_chars is None ==> {
            let m = text::lower(p.model@);
            let wide = text::has(m, "qwen"@) || (!text::has(m, "e5"@) && (text::has(m, "jina"@) || (p.backend@
                == "duckdb"@ && p.embedder@ == "ollama"@)));
            p.max_chunk_chars == if wide {
                32000usize
            } else {
                1400usize
            }
        },
        config.prefix_style matches Some(s) ==> {
            &&& text::lower(s@) == "e5"@ ==> p.prefix_style == PrefixStyle::E5
            &&& text::lower(s@) == "qwen"@ ==> p.prefix_style == PrefixStyle::Qwen
            &&& text::lower(s@) == "none"@ ==> p.prefix_style == PrefixStyle::Bare
        },
        config.prefix_style is None ==> {
            &&& p.prefix_style == PrefixStyle::E5 <==> text::has(text::lower(p.model@), "e5"@)
            &&& p.prefix_style == PrefixStyle::Bare <==> !text::has(text::lower(p.model@), "e5"@) && !text::has(
                text::lower(p.model@),
                "qwen"@,
            )
        },
{
    if let Some(s) = config.prefix_style {
        embedding::law_named_style(s@);
    }
}

/// A path is admitted exactly if the config has no allow-list or one of its patterns matches, and none
/// of the config's exclude patterns does.
pub proof fn law_admitted_paths(args: Args, config: Config, default: Seq<char>, p: Plan, ast: bool, key: Seq<char>)
    requires
        is_plan(p, args, config, default, ast),
    ensures
        p.admits(key) <==> (config.include_globs@.len() == 0 || globs::globs_match(
            text::views(config.include_globs@),
            key,
        )) && !globs::globs_match(text::views(config.exclude@), key),
{
}

/// The directories that a plan prunes: eight fixed ones and those of the config, each once, and no
/// others.
pub proof fn law_pruned_dirs(args: Args, config: Config, default: Seq<char>, p: Plan, ast: bool, d: Seq<char>)
    requires
        is_plan(p, args, config, default, ast),
    ensures
        text::views(p.exclude_dirs@).no_duplicates(),
        text::views(p.exclude_dirs@).contains(d) <==> (d == "node_modules"@ || d == ".git"@ || d == "dist"@ || d
            == "build"@ || d == "target"@ || d == ".next"@ || d == "coverage"@ || d == ".turbo"@ || exists|i: int|
            0 <= i < config.exclude_dirs@.len() && (#[trigger] config.exclude_dirs@[i])@ == d),
{
    let fixed = hard_prune();
    let more = text::views(config.exclude_dirs@);
    if fixed.contains(d) {
        let i = choose|i: int| 0 <= i < fixed.len() && fixed[i] == d;
        assert(d == fixed[0] || d == fixed[1] || d == fixed[2] || d == fixed[3] || d == fixed[4] || d == fixed[5]
            || d == fixed[6] || d == fixed[7]);
    }
    assert(fixed.contains(fixed[0]) && fixed.contains(fixed[1]) && fixed.contains(fixed[2]) && fixed.contains(
        fixed[3],
    ) && fixed.contains(fixed[4]) && fixed.contains(fixed[5]) && fixed.contains(fixed[6]) && fixed.contains(
        fixed[7],
    ));
    if more.contains(d) {
        let i = choose|i: int| 0 <= i < more.len() && more[i] == d;
        assert(config.exclude_dirs@[i]@ == d);
    }
    if exists|i: int| 0 <= i < config.exclude_dirs@.len() && (#[trigger] config.exclude_dirs@[i])@ == d {
        let i = choose|i: int| 0 <= i < config.exclude_dirs@.len() && (#[trigger] config.exclude_dirs@[i])@ == d;
        assert(more[i] == d);
    }
}

/// Flags and config resolve exactly if the patterns of both lists compile, server-side inference was
/// asked of Qdrant alone, and the prefix style, where one is given, is known.
pub proof fn law_what_resolves(
    args: Args,
    config: Config,
    default: Seq<char>,
    ast: bool,
    r: Result<Plan, ConfigError>,
)
    requires
        resolves(args, config, default, ast, r),
    ensures
        r is Ok ==> globs::globs_compile(text::views(config.exclude@)) && globs::globs_compile(
            text::views(config.include_globs@),
        ),
        r matches Ok(p) ==> (p.embedder@ == "qdrant"@ ==> p.backend@ == "qdrant"@),
        r is Ok && config.prefix_style is Some ==> {
            let s = text::lower(config.prefix_style->0@);
            s == "e5"@ || s == "qwen"@ || s == "none"@
        },
        r matches Err(ConfigError::PrefixStyle(u)) ==> config.prefix_style is Some && {
            let s = text::lower(config.prefix_style->0@);
            s != "e5"@ && s != "qwen"@ && s != "none"@ && u.name@ == s
        },
        r matches Err(ConfigError::BadGlob { label, pattern, reason }) ==> globs::glob_fault(pattern@) == Some(
            reason@,
        ) && ((label@ == "exclude"@ && text::views(config.exclude@).contains(pattern@)) || (label@ == "include"@
            && text::views(config.include_globs@).contains(pattern@))),
        !(r matches Err(ConfigError::NotFound { .. })),
{
    if let Err(ConfigError::BadGlob { label, pattern, reason }) = r {
        let list = if !globs_usable(config.exclude@) {
            config.exclude@
        } else {
            config.include_globs@
        };
        let i = choose|i: int| #[trigger] globs::first_unparsed(text::views(list), i) && pattern@ == list[i]@;
        assert(text::views(list)[i] == pattern@);
    }
}

/// The config taken from a directory is `sai-cfg.yml` if that is there, else `sai-cfg.yaml`, else
/// `indexer.yaml`; its path is that of a file in the directory.
pub proof fn law_default_config(dir: Seq<char>, files: Seq<Seq<char>>)
    ensures
        files.contains("sai-cfg.yml"@) ==> default_name(files) == Some("sai-cfg.yml"@),
        !files.contains("sai-cfg.yml"@) && files.contains("sai-cfg.yaml"@) ==> default_name(files) == Some(
            "sai-cfg.yaml"@,
        ),
        !files.contains("sai-cfg.yml"@) && !files.contains("sai-cfg.yaml"@) && files.contains("indexer.yaml"@)
            ==> default_name(files) == Some("indexer.yaml"@),
        default_name(files) matches Some(name) ==> files.contains(name),
        default_name(files) is None ==> !files.contains("sai-cfg.yml"@) && !files.contains("sai-cfg.yaml"@)
            && !files.contains("indexer.yaml"@),
        dir.len() > 0 && dir.last() != '/' ==> path_in(dir, "sai-cfg.yml"@) == dir + "/sai-cfg.yml"@,
        dir.len() > 0 && dir.last() == '/' ==> path_in(dir, "sai-cfg.yml"@) == dir + "sai-cfg.yml"@,
        path_in(Seq::empty(), "sai-cfg.yml"@) == "sai-cfg.yml"@,
{
    reveal_strlit("/sai-cfg.yml");
    reveal_strlit("sai-cfg.yml");
    reveal_strlit("/");
    if dir.len() > 0 && dir.last() != '/' {
        assert(path_in(dir, "sai-cfg.yml"@) =~= dir + "/sai-cfg.yml"@);
    }
    assert(path_in(Seq::empty(), "sai-cfg.yml"@) =~= "sai-cfg.yml"@);
}

/// The names of a config that may be absent: the two spellings of the standard one, and nothing with a
/// directory part.
pub proof fn law_bare_default_names(p: Seq<char>)
    ensures
        bare_default_name(p) <==> p == "sai-cfg.yml"@ || p == "sai-cfg.yaml"@,
        p.contains('/') ==> !bare_default_name(p),
{
    reveal_strlit("sai-cfg.yml");
    reveal_strlit("sai-cfg.yaml");
    assert(!"sai-cfg.yml"@.contains('/'));
    assert(!"sai-cfg.yaml"@.contains('/'));
}

/// Vectors are computed on this machine by `ort` and by `ollama`, and by no other embedder.
pub proof fn law_local_embedders(p: Plan)
    ensures
        p.embeds_locally() <==> p.embedder@ == "ort"@ || p.embedder@ == "ollama"@,
        p.embedder@ == "qdrant"@ ==> !p.embeds_locally(),
{
    reveal_strlit("qdrant");
    reveal_strlit("ort");
    reveal_strlit("ollama");
    assert("qdrant"@[0] == 'q' && "ort"@[0] == 'o' && "ollama"@[0] == 'o');
}

} // verus!
