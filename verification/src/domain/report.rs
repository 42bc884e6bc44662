//! What indexing and refreshing report.

use vstd::prelude::*;

verus! {

/// Outcome of re-indexing a single path.
#[derive(Debug, Clone, PartialEq, Eq)]
pub enum ReindexOutcome {
    /// The file left the index. `reason` says why.
    Removed { reason: &'static str },
    /// The file was re-indexed with `chunks` fresh chunks.
    Reindexed { chunks: usize },
}

/// Outcome of a refresh: one entry per input path, in input order.
#[derive(Debug)]
pub struct RefreshReport {
    /// The path without a leading `./`, and what became of it.
    pub entries: Vec<(String, ReindexOutcome)>,
}

/// Live indexing progress, one per upsert batch.
#[derive(Clone, Debug)]
pub struct IndexProgress {
    /// Distinct files crossed into so far.
    pub files_done: usize,
    /// Files that produced chunks in this run.
    pub files_total: usize,
    /// Chunks upserted so far.
    pub chunks_done: usize,
    /// Chunks to upsert in this run.
    pub chunks_total: usize,
    /// Path of the last chunk in the batch.
    pub path: String,
}

/// Summary of an indexing run.
#[derive(Debug)]
pub struct IndexReport {
    /// Chunks upserted.
    pub chunks: usize,
    /// Files that produced chunks.
    pub files: usize,
    /// Files skipped by globs or the generated-code marker.
    pub skipped: usize,
}

} // verus!
