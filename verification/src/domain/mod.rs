//! The value objects that the services, the stores and the front ends exchange.

pub mod chunk;
pub mod duplicate;
pub mod embedding;
pub mod hit;
pub mod plan;
pub mod report;
pub mod similar;

pub use chunk::CodeChunk;
pub use duplicate::{DupCluster, DupMember};
pub use embedding::{format_passage, format_query, PrefixStyle};
pub use hit::Hit;
pub use plan::Plan;
pub use report::{IndexProgress, IndexReport, RefreshReport, ReindexOutcome};
pub use similar::SimilarTarget;
