//! The [`CodeChunk`] entity: one embeddable slice of a source file.

use vstd::prelude::*;

verus! {

/// One embeddable slice of a source file, ready to upsert.
#[derive(Clone, Debug)]
pub struct CodeChunk {
    pub id: u64,
    pub path: String,
    pub language: String,
    pub start_line: usize,
    pub end_line: usize,
    pub text: String,
    /// The captured symbol name. `None` for line-window chunks.
    pub symbol: Option<String>,
    /// The commit this version was indexed at.
    pub commit_sha: Option<String>,
    /// Whether the source tree had uncommitted changes at index time.
    pub dirty: bool,
    /// Whether the chunk opts out of near-duplicate clustering. It is still indexed and searchable.
    pub no_duplicate: bool,
}

} // verus!
