//! The [`Hit`] value object: a search result row.

use crate::score::Score;
use vstd::prelude::*;

verus! {

/// A search result row.
#[derive(Debug)]
pub struct Hit {
    pub id: u64,
    pub path: String,
    pub language: String,
    pub start_line: usize,
    pub end_line: usize,
    pub text: String,
    pub score: Score,
    /// The captured symbol name, where the chunk has one.
    pub symbol: Option<String>,
    /// The commit at which this chunk was last indexed.
    pub commit_sha: Option<String>,
    pub dirty: bool,
    /// Whether the chunk opts out of near-duplicate clustering.
    pub no_duplicate: bool,
}

} // verus!
