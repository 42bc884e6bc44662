//! The [`Plan`]: flags and config, resolved.

use crate::domain::embedding::PrefixStyle;
use crate::globs;
use crate::score::Score;
use crate::text;
use globset::GlobSet;
use vstd::prelude::*;

verus! {

/// The resolved settings of a run.
pub struct Plan {
    pub root: String,
    /// Extensions to walk, without dots.
    pub ext: Vec<String>,
    /// `qdrant` or `duckdb`.
    pub backend: String,
    /// `qdrant` (server-side inference), `ort` or `ollama`.
    pub embedder: String,
    /// `lines` or `ast`.
    pub chunker: String,
    /// The largest chunk, in characters.
    pub max_chunk_chars: usize,
    pub prefix_style: PrefixStyle,
    pub collection: String,
    pub model: String,
    pub vector_dim: u64,
    pub qdrant_url: Option<String>,
    pub duckdb_path: String,
    pub duckdb_model_cache: Option<String>,
    pub model_repo: String,
    pub ollama_url: String,
    pub ollama_model: Option<String>,
    /// Directories never walked, each once.
    pub exclude_dirs: Vec<String>,
    pub include_globs: GlobSet,
    /// Whether any allow-list pattern was configured.
    pub include_active: bool,
    pub exclude: GlobSet,
    pub skip_generated: bool,
    pub strip_comments: bool,
    pub honor_noindex_marker: bool,
    pub honor_noduplicate_marker: bool,
    pub limit: u64,
    pub find_similar_min_score: Score,
    pub duplicate_min_score: Score,
    pub duplicate_min_cluster_size: usize,
    pub top_k: usize,
}

impl Plan {
    /// Whether a path is to be indexed: the allow-list admits it or is not in use, and no exclude
    /// pattern matches.
    pub open spec fn admits(&self, key: Seq<char>) -> bool {
        &&& !self.include_active || globs::globs_match(globs::set_globs(self.include_globs), key)
        &&& !globs::globs_match(globs::set_globs(self.exclude), key)
    }

    /// Whether a path is to be indexed.
    pub fn passes_globs(&self, key: &str) -> (r: bool)
        ensures
            r == self.admits(key@),
    {
        (!self.include_active || globs::matches_any(&self.include_globs, key)) && !globs::matches_any(
            &self.exclude,
            key,
        )
    }

    /// Whether vectors are computed on this machine rather than by the server.
    pub open spec fn embeds_locally(&self) -> bool {
        self.embedder@ == "ort"@ || self.embedder@ == "ollama"@
    }

    /// Whether vectors are computed on this machine rather than by the server.
    pub fn can_embed_locally(&self) -> (r: bool)
        ensures
            r == self.embeds_locally(),
    {
        text::same(self.embedder.as_str(), "ort") || text::same(self.embedder.as_str(), "ollama")
    }

    /// The least score of a similarity search.
    pub fn find_similar_min_score(&self) -> (r: Score)
        ensures
            r == self.find_similar_min_score,
    {
        self.find_similar_min_score
    }

    /// The least score that links two near-duplicates.
    pub fn duplicate_min_score(&self) -> (r: Score)
        ensures
            r == self.duplicate_min_score,
    {
        self.duplicate_min_score
    }

    /// The least size of a reported cluster.
    pub fn duplicate_min_cluster_size(&self) -> (r: usize)
        ensures
            r == self.duplicate_min_cluster_size,
    {
        self.duplicate_min_cluster_size
    }

    /// How many neighbours of each chunk are looked at.
    pub fn top_k(&self) -> (r: usize)
        ensures
            r == self.top_k,
    {
        self.top_k
    }
}

} // verus!
