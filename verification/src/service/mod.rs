//! The use cases: indexing a tree, refreshing changed files, and the two similarity searches. Each
//! is a machine that says what the store is to do next and takes in what came of it.

pub mod indexing;
pub mod query;
