//! The [`SimilarTarget`] value object: what a similarity search looks for.

use vstd::prelude::*;

verus! {

/// What a similarity search looks for.
#[derive(Debug)]
pub enum SimilarTarget {
    /// A code snippet, to be embedded as a passage.
    Code(String),
    /// An indexed chunk, found by path and 1-based line. Its stored vector is reused, and it is
    /// left out of its own results.
    Location { path: String, line: usize },
}

} // verus!
