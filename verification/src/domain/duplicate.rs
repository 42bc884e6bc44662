//! Near-duplicate clusters: [`DupCluster`] and its [`DupMember`]s.

use crate::score::Score;
use vstd::prelude::*;

verus! {

/// One member of a near-duplicate cluster.
#[derive(Debug, Clone)]
pub struct DupMember {
    pub path: String,
    pub start_line: usize,
    pub end_line: usize,
    pub symbol: Option<String>,
}

/// A near-duplicate cluster: its members and the least and greatest similarity between them.
#[derive(Debug, Clone)]
pub struct DupCluster {
    pub size: usize,
    pub members: Vec<DupMember>,
    pub min_sim: Score,
    pub max_sim: Score,
}

} // verus!
