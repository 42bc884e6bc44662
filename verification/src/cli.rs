//! The values the command line gives: flags, subcommands and their arguments.

use crate::score::Score;
use vstd::prelude::*;

verus! {

/// How diagnostics are rendered.
#[derive(Clone, Copy, Debug, PartialEq, Eq, Structural)]
pub enum LogFormat {
    Pretty,
    Json,
}

/// The global flags, and the subcommand where there is one.
#[derive(Debug, Clone)]
pub struct Args {
    /// `None` indexes `root`.
    pub command: Option<Cmd>,
    /// Directory to walk for source files.
    pub root: String,
    /// Extensions to index.
    pub ext: Vec<String>,
    pub backend: Option<String>,
    pub embedder: Option<String>,
    pub chunker: Option<String>,
    /// Path of the YAML config. `None` looks for the default names.
    pub config: Option<String>,
    pub collection: Option<String>,
    pub model: Option<String>,
    /// A query to run after indexing.
    pub query: Option<String>,
    /// Skip indexing and only run the query.
    pub query_only: bool,
    /// Drop and recreate the collection before indexing.
    pub recreate: bool,
    /// Report what would be indexed, and nothing else.
    pub dry_run: bool,
    /// Number of results to print for a query.
    pub limit: u64,
    /// Suppress progress, warnings and notes.
    pub silent: bool,
    /// How often `-v` was given.
    pub verbose: u8,
    pub log_format: Option<LogFormat>,
    /// Report the time each operation takes.
    pub timing: bool,
}

/// A subcommand.
#[derive(Debug, Clone)]
pub enum Cmd {
    /// Generate a starter config.
    Init(InitArgs),
    /// Install the latest release.
    Update,
    /// Delete the whole collection.
    Flush,
    /// Re-index changed files only.
    Sync(SyncArgs),
    /// Serve the index over MCP.
    Mcp(McpArgs),
    /// Print near-duplicate clusters.
    Duplicates(DuplicatesArgs),
    /// Print the nearest neighbours of a snippet or of an indexed chunk.
    Similar(SimilarArgs),
}

/// Arguments of `init`.
#[derive(Debug, Clone)]
pub struct InitArgs {
    /// Accept every default without asking.
    pub yes: bool,
    /// Overwrite an existing file.
    pub force: bool,
    /// Where to write the config.
    pub output: String,
}

/// Arguments of `duplicates`.
#[derive(Debug, Clone)]
pub struct DuplicatesArgs {
    pub min_score: Option<Score>,
    pub min_cluster_size: Option<usize>,
    pub top_k: Option<u64>,
    /// Restrict the scan to paths matching this glob.
    pub path_glob: Option<String>,
    pub max_clusters: Option<usize>,
    /// Seed with the files changed since this revision.
    pub since: Option<String>,
    /// Seed with the staged files.
    pub staged: bool,
    /// Seed with these files.
    pub files: Vec<String>,
    /// Print JSON.
    pub json: bool,
}

/// Arguments of `similar`: either `code`, or `path` and `line`.
#[derive(Debug, Clone)]
pub struct SimilarArgs {
    pub code: Option<String>,
    pub path: Option<String>,
    pub line: Option<usize>,
    pub limit: u64,
    pub min_score: Option<Score>,
}

/// Arguments of `mcp`.
#[derive(Debug, Clone)]
pub struct McpArgs {
    /// Open the index for writing, and offer the tools that write.
    pub allow_write: bool,
    /// Let the setup tool run the setup script.
    pub allow_setup: bool,
    /// Serve over HTTP at this address instead of stdio.
    pub http: Option<String>,
}

/// Arguments of `sync`.
#[derive(Debug, Clone)]
pub struct SyncArgs {
    /// The revision to compare with.
    pub since: String,
    /// Take the staged changes instead.
    pub staged: bool,
    /// Take these files instead.
    pub files: Vec<String>,
}

} // verus!
