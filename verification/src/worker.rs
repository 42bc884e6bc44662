//! The worker that owns a store: what it does for each request.

use crate::domain::{CodeChunk, SimilarTarget};
use crate::score::Score;
use crate::service::query::DuplicateKnobs;
use vstd::prelude::*;

verus! {

/// What can be asked of the worker.
pub enum Request<V> {
    EnsureReady { recreate: bool },
    BeginBulk,
    EndBulk,
    Upsert { chunks: Vec<CodeChunk> },
    Flush,
    Query { query: String, limit: u64 },
    SearchByQuery { query: String, fetch: u64 },
    SearchByPassage { code: String, limit: u64 },
    QueryByVector { vector: V, limit: u64, exclude_id: Option<u64> },
    GetByLocation { path: String, line: usize },
    ChunkCount,
    HasDirty,
    FindDuplicates { knobs: DuplicateKnobs, path_glob: Option<String>, seed_paths: Option<Vec<String>> },
    FindSimilar { target: SimilarTarget, limit: u64, min_score: Score },
    Refresh { paths: Vec<String> },
}

/// One call of a store.
pub enum StoreCall<V> {
    EnsureReady { recreate: bool },
    BeginBulk,
    EndBulk,
    Upsert { chunks: Vec<CodeChunk> },
    Flush,
    Query { query: String, limit: u64 },
    QueryByVector { vector: V, limit: u64, exclude_id: Option<u64> },
    GetByLocation { path: String, line: usize },
    ChunkCount,
    HasDirty,
}

/// The side on which a text is embedded.
#[derive(Clone, Copy, Debug, PartialEq, Eq, Structural)]
pub enum Side {
    Query,
    Passage,
}

/// What the worker does for a request.
pub enum Job<V> {
    /// One call, whose reply is the answer.
    Call(StoreCall<V>),
    /// Embed the text, then search by its vector, leaving out nothing. An error of either is the
    /// answer.
    EmbedThenSearch { side: Side, text: String, limit: u64 },
    /// A scan for near-duplicates, over the chunks of the matching paths.
    Duplicates { knobs: DuplicateKnobs, path_glob: Option<String>, seed_paths: Option<Vec<String>> },
    /// A similarity search.
    Similar { target: SimilarTarget, limit: u64, min_score: Score },
    /// A refresh of these paths.
    Refresh { paths: Vec<String> },
}

/// What the worker does for a request.
pub open spec fn job_of<V>(request: Request<V>, embeds_locally: bool) -> Job<V> {
    match request {
        Request::EnsureReady { recreate } => Job::Call(StoreCall::EnsureReady { recreate }),
        Request::BeginBulk => Job::Call(StoreCall::BeginBulk),
        Request::EndBulk => Job::Call(StoreCall::EndBulk),
        Request::Upsert { chunks } => Job::Call(StoreCall::Upsert { chunks }),
        Request::Flush => Job::Call(StoreCall::Flush),
        Request::Query { query, limit } => Job::Call(StoreCall::Query { query, limit }),
        Request::SearchByQuery { query, fetch } => if embeds_locally {
            Job::EmbedThenSearch { side: Side::Query, text: query, limit: fetch }
        } else {
            Job::Call(StoreCall::Query { query, limit: fetch })
        },
        Request::SearchByPassage { code, limit } => Job::EmbedThenSearch { side: Side::Passage, text: code, limit },
        Request::QueryByVector { vector, limit, exclude_id } => Job::Call(
            StoreCall::QueryByVector { vector, limit, exclude_id },
        ),
        Request::GetByLocation { path, line } => Job::Call(StoreCall::GetByLocation { path, line }),
        Request::ChunkCount => Job::Call(StoreCall::ChunkCount),
        Request::HasDirty => Job::Call(StoreCall::HasDirty),
        Request::FindDuplicates { knobs, path_glob, seed_paths } => Job::Duplicates {
            knobs,
            path_glob,
            seed_paths,
        },
        Request::FindSimilar { target, limit, min_score } => Job::Similar { target, limit, min_score },
        Request::Refresh { paths } => Job::Refresh { paths },
    }
}

/// What the worker does for a request. A query is embedded on this machine where the store's
/// embedder runs here, and otherwise handed to the server as text.
pub fn plan_job<V>(request: Request<V>, embeds_locally: bool) -> (r: Job<V>)
    ensures
        r == job_of(request, embeds_locally),
{
    match request {
        Request::EnsureReady { recreate } => Job::Call(StoreCall::EnsureReady { recreate }),
        Request::BeginBulk => Job::Call(StoreCall::BeginBulk),
        Request::EndBulk => Job::Call(StoreCall::EndBulk),
        Request::Upsert { chunks } => Job::Call(StoreCall::Upsert { chunks }),
        Request::Flush => Job::Call(StoreCall::Flush),
        Request::Query { query, limit } => Job::Call(StoreCall::Query { query, limit }),
        Request::SearchByQuery { query, fetch } => if embeds_locally {
            Job::EmbedThenSearch { side: Side::Query, text: query, limit: fetch }
        } else {
            Job::Call(StoreCall::Query { query, limit: fetch })
        },
        Request::SearchByPassage { code, limit } => Job::EmbedThenSearch { side: Side::Passage, text: code, limit },
        Request::QueryByVector { vector, limit, exclude_id } => Job::Call(
            StoreCall::QueryByVector { vector, limit, exclude_id },
        ),
        Request::GetByLocation { path, line } => Job::Call(StoreCall::GetByLocation { path, line }),
        Request::ChunkCount => Job::Call(StoreCall::ChunkCount),
        Request::HasDirty => Job::Call(StoreCall::HasDirty),
        Request::FindDuplicates { knobs, path_glob, seed_paths } => Job::Duplicates {
            knobs,
            path_glob,
            seed_paths,
        },
        Request::FindSimilar { target, limit, min_score } => Job::Similar { target, limit, min_score },
        Request::Refresh { paths } => Job::Refresh { paths },
    }
}

/// What a caller is told once the worker is gone.
pub fn worker_gone() -> (r: String)
    ensures
        r@ == "backend worker thread is no longer running"@,
{
    "backend worker thread is no longer running".to_string()
}

/// A query is embedded here exactly if the store's embedder runs here, and a snippet always is; each
/// keeps its text and its limit, on its own side.
pub proof fn law_searches<V>(text: String, limit: u64, embeds_locally: bool)
    ensures
        job_of::<V>((Request::SearchByPassage { code: text, limit }), embeds_locally) == (Job::<V>::EmbedThenSearch {
            side: Side::Passage,
            text,
            limit,
        }),
        embeds_locally ==> job_of::<V>((Request::SearchByQuery { query: text, fetch: limit }), embeds_locally) == (
        Job::<V>::EmbedThenSearch { side: Side::Query, text, limit }),
        !embeds_locally ==> job_of::<V>((Request::SearchByQuery { query: text, fetch: limit }), embeds_locally)
            == job_of::<V>((Request::Query { query: text, limit }), embeds_locally),
{
}

/// Where the embedder runs matters to a search by a query alone, and different requests of any other
/// kind are different jobs.
pub proof fn law_jobs_tell_requests_apart<V>(a: Request<V>, b: Request<V>, x: bool, y: bool)
    requires
        !(a is SearchByQuery),
        !(b is SearchByQuery),
        job_of(a, x) == job_of(b, y),
    ensures
        a == b,
{
}

/// Every request that is no search and no scan is one call of the store, of the same kind and with the
/// same values, wherever the embedder runs.
pub proof fn law_plain_requests<V>(request: Request<V>, embeds_locally: bool, call: StoreCall<V>)
    requires
        job_of(request, embeds_locally) == Job::Call(call),
    ensures
        request matches Request::EnsureReady { recreate } ==> call == (StoreCall::<V>::EnsureReady { recreate }),
        request is BeginBulk ==> call is BeginBulk,
        request is EndBulk ==> call is EndBulk,
        request matches Request::Upsert { chunks } ==> call == (StoreCall::<V>::Upsert { chunks }),
        request is Flush ==> call is Flush,
        request matches Request::Query { query, limit } ==> call == (StoreCall::<V>::Query { query, limit }),
        request matches Request::QueryByVector { vector, limit, exclude_id } ==> call == (
        StoreCall::<V>::QueryByVector { vector, limit, exclude_id }),
        request matches Request::GetByLocation { path, line } ==> call == (StoreCall::<V>::GetByLocation {
            path,
            line,
        }),
        request is ChunkCount ==> call is ChunkCount,
        request is HasDirty ==> call is HasDirty,
        !(request is SearchByPassage),
        !(request is FindDuplicates),
        !(request is FindSimilar),
        !(request is Refresh),
        request is SearchByQuery ==> !embeds_locally,
{
}

} // verus!
