//! Indexing, refreshing and searching, over a store in memory.

use semanticastindexer::app::report::resolve_duplicates;
use semanticastindexer::cli::DuplicatesArgs;
use semanticastindexer::config::{build_plan, Config, Plan};
use semanticastindexer::domain::{CodeChunk, DupCluster, Hit, IndexProgress, RefreshReport, ReindexOutcome, SimilarTarget};
use semanticastindexer::git::{ChangedFiles, GitContext};
use semanticastindexer::score::Score;
use semanticastindexer::service::indexing::{
    FileLoad, IndexAction, IndexRun, IndexStep, RefreshAction, RefreshReply, RefreshRun, RefreshStep,
};
use semanticastindexer::service::query::{DuplicateKnobs, DuplicateScan, Found, Lookup, SimilarSearch};
use semanticastindexer::vectordbs::qdrant::nearest_rows;

fn score(x: f32) -> Score {
    Score::from_bits(x.to_bits())
}

struct Row {
    id: u64,
    path: String,
    start_line: usize,
    vector: Vec<f32>,
}

fn row(id: u64, path: &str, start_line: usize, vector: Vec<f32>) -> Row {
    Row { id, path: path.to_string(), start_line, vector }
}

fn hit_of(r: &Row, s: f32) -> Hit {
    Hit {
        id: r.id,
        path: r.path.clone(),
        language: "ts".to_string(),
        start_line: r.start_line,
        end_line: r.start_line + 5,
        text: format!("chunk {}", r.id),
        score: score(s),
        symbol: None,
        commit_sha: None,
        dirty: false,
        no_duplicate: false,
    }
}

fn cosine(a: &[f32], b: &[f32]) -> f32 {
    let dot: f32 = a.iter().zip(b).map(|(x, y)| x * y).sum();
    let na: f32 = a.iter().map(|x| x * x).sum::<f32>().sqrt();
    let nb: f32 = b.iter().map(|x| x * x).sum::<f32>().sqrt();
    if na == 0.0 || nb == 0.0 {
        return 0.0;
    }
    dot / (na * nb)
}

fn query_by_vector(rows: &[Row], v: &[f32], limit: u64, exclude_id: Option<u64>) -> Vec<Hit> {
    let mut hits: Vec<Hit> = rows.iter().map(|r| hit_of(r, cosine(v, &r.vector))).collect();
    hits.sort_by(|a, b| {
        f32::from_bits(b.score.bits)
            .partial_cmp(&f32::from_bits(a.score.bits))
            .unwrap()
            .then(a.id.cmp(&b.id))
    });
    nearest_rows(hits, limit, exclude_id)
}

fn find_duplicates(rows: &[Row], seeds: Option<Vec<String>>, knobs: DuplicateKnobs) -> Vec<DupCluster> {
    let chunks: Vec<(Hit, Vec<f32>)> = rows.iter().map(|r| (hit_of(r, 1.0), r.vector.clone())).collect();
    let mut scan = DuplicateScan::new(chunks, seeds, knobs);
    loop {
        let hits = match scan.wanted() {
            Some(w) => query_by_vector(rows, w.vector, w.limit, Some(w.exclude_id)),
            None => break,
        };
        scan.take(hits);
    }
    scan.finish()
}

fn knobs() -> DuplicateKnobs {
    DuplicateKnobs { min_score: score(0.95), min_cluster_size: 2, top_k: 10, max_clusters: 50 }
}

fn paths(c: &DupCluster) -> Vec<&str> {
    c.members.iter().map(|m| m.path.as_str()).collect()
}

fn plan() -> Plan {
    let args = semanticastindexer::cli::Args {
        command: None,
        root: "src".to_string(),
        ext: vec!["ts".to_string()],
        backend: None,
        embedder: None,
        chunker: None,
        config: None,
        collection: Some("test_coll".to_string()),
        model: None,
        query: None,
        query_only: false,
        recreate: false,
        dry_run: false,
        limit: 5,
        silent: false,
        verbose: 0,
        log_format: None,
        timing: false,
    };
    build_plan(&args, &Config::default(), false).ok().unwrap()
}

fn chunk(id: u64, path: &str) -> CodeChunk {
    CodeChunk {
        id,
        path: path.to_string(),
        language: "ts".to_string(),
        start_line: 1,
        end_line: 2,
        text: "export const x = 1".to_string(),
        symbol: None,
        commit_sha: None,
        dirty: false,
        no_duplicate: false,
    }
}

fn clean() -> GitContext {
    GitContext { sha: None, dirty: false }
}

#[derive(Default)]
struct Calls {
    begin_bulk: usize,
    end_bulk: usize,
    upserts: Vec<usize>,
    deletes: Vec<String>,
}

fn index(
    chunks: Vec<CodeChunk>,
    files: usize,
    skipped: usize,
    ctx: &GitContext,
    fail: Option<usize>,
) -> (Result<(usize, usize, usize), String>, Calls, Vec<IndexProgress>) {
    let mut calls = Calls::default();
    let mut progress = Vec::new();
    let mut run: IndexRun<String> = IndexRun::new(chunks, files, skipped, ctx);
    loop {
        let reply = match run.action() {
            IndexAction::BeginBulk => {
                calls.begin_bulk += 1;
                Ok(())
            }
            IndexAction::Upsert(batch) => {
                calls.upserts.push(batch.len());
                if fail == Some(calls.upserts.len()) {
                    Err("store is full".to_string())
                } else {
                    Ok(())
                }
            }
            IndexAction::EndBulk => {
                calls.end_bulk += 1;
                Ok(())
            }
        };
        match run.step(reply) {
            IndexStep::More(next, p) => {
                progress.extend(p);
                run = next;
            }
            IndexStep::Finished(r) => return (r.map(|r| (r.chunks, r.files, r.skipped)), calls, progress),
        }
    }
}

fn refresh(
    paths: &[&str],
    fail_delete: Option<&str>,
    load: fn(&str) -> FileLoad,
) -> (Result<RefreshReport, String>, Calls) {
    let mut calls = Calls::default();
    let mut run: RefreshRun<String> = RefreshRun::new(paths.iter().map(|p| p.to_string()).collect(), true);
    loop {
        let reply = match run.action() {
            RefreshAction::BeginBulk => {
                calls.begin_bulk += 1;
                RefreshReply::Stored(Ok(()))
            }
            RefreshAction::Delete(key) => {
                let failed = fail_delete == Some(key.as_str());
                calls.deletes.push(key);
                RefreshReply::Stored(if failed { Err("locked".to_string()) } else { Ok(()) })
            }
            RefreshAction::Load { path, key: _ } => RefreshReply::Loaded(clean(), load(path)),
            RefreshAction::Upsert(batch) => {
                calls.upserts.push(batch.len());
                RefreshReply::Stored(Ok(()))
            }
            RefreshAction::EndBulk => {
                calls.end_bulk += 1;
                RefreshReply::Stored(Ok(()))
            }
        };
        match run.step(reply) {
            RefreshStep::More(next) => run = next,
            RefreshStep::Finished(r) => return (r, calls),
        }
    }
}

fn on_disk(path: &str) -> FileLoad {
    if path.ends_with("keep.ts") {
        FileLoad::Chunks(vec![chunk(1, "keep.ts")])
    } else if path.ends_with("keep.test.ts") {
        FileLoad::Skipped { generated: false }
    } else if path.ends_with("gen.ts") {
        FileLoad::Skipped { generated: true }
    } else if path.ends_with("empty.ts") {
        FileLoad::Chunks(Vec::new())
    } else {
        FileLoad::Missing
    }
}

#[test]
fn index_drives_begin_upsert_end_in_order() {
    let chunks = vec![chunk(1, "alpha.ts"), chunk(2, "beta.ts")];
    let expected = chunks.len();
    let (res, calls, _) = index(chunks, 2, 0, &clean(), None);
    assert!(res.is_ok());
    assert_eq!(calls.begin_bulk, 1, "exactly one begin_bulk");
    assert_eq!(calls.end_bulk, 1, "exactly one end_bulk");
    assert_eq!(calls.upserts.len(), 1, "one upsert batch");
    assert_eq!(calls.upserts.iter().sum::<usize>(), expected, "upserted chunk count must match collect_chunks");
}

#[test]
fn index_sources_drives_bulk_window_and_emits_progress() {
    let chunks_total = 130;
    let chunks: Vec<CodeChunk> = (0..chunks_total)
        .map(|i| chunk(i as u64, if i < 70 { "alpha.ts" } else { "beta.ts" }))
        .collect();
    let (res, calls, progress) = index(chunks, 2, 3, &clean(), None);
    let (report_chunks, report_files, report_skipped) = res.unwrap();
    assert_eq!(calls.begin_bulk, 1, "exactly one begin_bulk");
    assert_eq!(calls.end_bulk, 1, "exactly one end_bulk");
    assert_eq!(calls.upserts, vec![64, 64, 2]);
    assert_eq!(report_chunks, chunks_total, "report chunk total");
    assert_eq!(report_files, 2, "report file count");
    assert_eq!(report_skipped, 3);
    let last = progress.last().expect("at least one progress emit");
    assert_eq!(last.chunks_done, chunks_total, "final progress reports all chunks done");
    assert_eq!(last.chunks_total, chunks_total);
    assert_eq!(last.files_done, 2);
    assert_eq!(last.path, "beta.ts");
}

/// A failed upsert still closes the window, and its error is the one that is reported.
#[test]
fn a_failed_upsert_closes_the_window() {
    let chunks: Vec<CodeChunk> = (0..130).map(|i| chunk(i, "alpha.ts")).collect();
    let (res, calls, _) = index(chunks, 1, 0, &clean(), Some(2));
    assert_eq!(res.unwrap_err(), "store is full");
    assert_eq!(calls.upserts.len(), 2, "nothing is stored after the failure");
    assert_eq!(calls.end_bulk, 1, "the window is closed");
}

#[test]
fn chunks_are_stamped() {
    let ctx = GitContext { sha: Some("abc123".to_string()), dirty: true };
    let mut run: IndexRun<String> = IndexRun::new(vec![chunk(1, "a.ts")], 1, 0, &ctx);
    run = match run.step(Ok(())) {
        IndexStep::More(next, _) => next,
        IndexStep::Finished(_) => panic!("there is a batch"),
    };
    match run.action() {
        IndexAction::Upsert(batch) => {
            assert_eq!(batch[0].commit_sha.as_deref(), Some("abc123"));
            assert!(batch[0].dirty);
        }
        _ => panic!("the batch comes next"),
    }
}

#[test]
fn sync_deletes_every_path_and_upserts_only_indexable() {
    let (res, calls) = refresh(&["dir/keep.ts", "dir/keep.test.ts", "dir/gone.ts"], None, on_disk);
    assert!(res.is_ok());
    assert_eq!(calls.deletes.len(), 3, "delete fired for each changed path");
    assert_eq!(calls.begin_bulk, 1);
    assert_eq!(calls.end_bulk, 1);
    assert_eq!(calls.upserts.len(), 1, "only the indexable file upserts");
    assert!(calls.upserts[0] > 0, "indexable file produced chunks");
}

#[test]
fn refresh_reindexes_existing_and_removes_gone() {
    let (res, calls) = refresh(&["./keep.ts", "./gone.ts"], None, on_disk);
    let report = res.unwrap();
    assert_eq!(report.entries[0].0, "keep.ts", "the key has no leading ./");
    match &report.entries[0].1 {
        ReindexOutcome::Reindexed { chunks } => assert!(*chunks > 0, "indexable file chunks"),
        ReindexOutcome::Removed { .. } => panic!("existing file must be reindexed"),
    }
    match &report.entries[1].1 {
        ReindexOutcome::Removed { .. } => {}
        ReindexOutcome::Reindexed { .. } => panic!("gone file must be removed"),
    }
    assert_eq!(calls.begin_bulk, 1);
    assert_eq!(calls.end_bulk, 1);
    assert_eq!(calls.deletes.len(), 2, "delete fires per path");
    assert_eq!(calls.upserts.len(), 1, "only the existing file upserts");
}

#[test]
fn removed_paths_say_why() {
    let (res, _) = refresh(&["gone.ts", "gen.ts", "keep.test.ts", "empty.ts"], None, on_disk);
    let reasons: Vec<&str> = res
        .unwrap()
        .entries
        .iter()
        .map(|e| match &e.1 {
            ReindexOutcome::Removed { reason } => *reason,
            ReindexOutcome::Reindexed { .. } => panic!("nothing is stored"),
        })
        .collect();
    assert_eq!(
        reasons,
        vec!["removed", "removed: autogenerated", "removed", "removed: no indexable content"]
    );
}

#[test]
fn a_failed_delete_closes_the_window() {
    let (res, calls) = refresh(&["keep.ts", "other.ts", "keep.ts"], Some("other.ts"), on_disk);
    assert_eq!(res.unwrap_err(), "locked");
    assert_eq!(calls.deletes, vec!["keep.ts", "other.ts"]);
    assert_eq!(calls.end_bulk, 1);
}

#[test]
fn query_by_vector_orders_by_similarity_and_truncates() {
    let rows = vec![
        row(1, "src/a.ts", 1, vec![1.0, 0.0, 0.0, 0.0]),
        row(2, "src/b.ts", 1, vec![0.9, 0.1, 0.0, 0.0]),
        row(3, "src/c.ts", 1, vec![0.0, 1.0, 0.0, 0.0]),
    ];
    let hits = query_by_vector(&rows, &[1.0, 0.0, 0.0, 0.0], 2, None);
    assert_eq!(hits.len(), 2, "truncated to limit");
    assert_eq!(hits[0].id, 1, "exact match ranks first");
    assert_eq!(hits[1].id, 2, "near match second");
    assert!(!hits[0].score.is_below(&hits[1].score), "scores descending");
}

#[test]
fn query_by_vector_excludes_self_id() {
    let rows = vec![
        row(1, "src/a.ts", 1, vec![1.0, 0.0, 0.0, 0.0]),
        row(2, "src/b.ts", 1, vec![0.99, 0.01, 0.0, 0.0]),
    ];
    let hits = query_by_vector(&rows, &[1.0, 0.0, 0.0, 0.0], 8, Some(1));
    assert!(hits.iter().all(|h| h.id != 1), "self id excluded");
    assert_eq!(hits.len(), 1);
    assert_eq!(hits[0].id, 2);
}

#[test]
fn query_by_vector_results_have_unique_ids() {
    let mut rows: Vec<Row> = (1..=10)
        .map(|i| row(i, &format!("src/f{i}.ts"), 1, vec![i as f32, 0.0, 0.0, 0.0]))
        .collect();
    rows.push(row(5, "src/f5.ts", 1, vec![5.0, 0.0, 0.0, 0.0]));
    let hits = query_by_vector(&rows, &[5.0, 0.0, 0.0, 0.0], 50, None);
    let mut ids: Vec<u64> = hits.iter().map(|h| h.id).collect();
    let before = ids.len();
    ids.sort_unstable();
    ids.dedup();
    assert_eq!(before, ids.len(), "no duplicate ids in results");
    assert_eq!(before, 10);
}

#[test]
fn find_duplicates_clusters_near_identical_pair() {
    let rows = vec![
        row(1, "src/dup1.ts", 1, vec![1.0, 0.0, 0.0, 0.0]),
        row(2, "src/dup2.ts", 1, vec![0.999, 0.01, 0.0, 0.0]),
        row(3, "src/other.ts", 1, vec![0.0, 0.0, 0.0, 1.0]),
    ];
    let clusters = find_duplicates(&rows, None, knobs());
    assert_eq!(clusters.len(), 1, "exactly one near-duplicate cluster");
    let paths = paths(&clusters[0]);
    assert!(paths.contains(&"src/dup1.ts"));
    assert!(paths.contains(&"src/dup2.ts"));
    assert!(!paths.contains(&"src/other.ts"), "outlier excluded");
}

fn two_pairs(dir: &str) -> Vec<Row> {
    vec![
        row(1, &format!("{dir}new.ts"), 1, vec![1.0, 0.0, 0.0, 0.0]),
        row(2, &format!("{dir}existing.ts"), 1, vec![0.999, 0.01, 0.0, 0.0]),
        row(3, &format!("{dir}old_a.ts"), 1, vec![0.0, 0.0, 1.0, 0.0]),
        row(4, &format!("{dir}old_b.ts"), 1, vec![0.0, 0.0, 0.999, 0.01]),
    ]
}

#[test]
fn find_duplicates_honors_seed_paths() {
    let rows = two_pairs("src/");
    let clusters = find_duplicates(&rows, Some(vec!["src/new.ts".to_string()]), knobs());
    assert_eq!(clusters.len(), 1, "only the seeded file's duplicate surfaces");
    let found = paths(&clusters[0]);
    assert!(found.contains(&"src/new.ts"), "the seed is present");
    assert!(
        found.contains(&"src/existing.ts"),
        "the untouched code it duplicates is pulled in as a neighbour"
    );
    assert!(
        !found.contains(&"src/old_a.ts") && !found.contains(&"src/old_b.ts"),
        "the untouched-only pre-existing pair does NOT seed"
    );
    let clusters = find_duplicates(&rows, None, knobs());
    assert_eq!(clusters.len(), 2, "whole-DB scan reports both pairs");
}

#[test]
fn duplicates_since_seeds_through_cli_service_path() {
    let seeded_args = DuplicatesArgs {
        min_score: Some(score(0.95)),
        min_cluster_size: Some(2),
        top_k: Some(10),
        path_glob: None,
        max_clusters: Some(50),
        since: Some("HEAD".to_string()),
        staged: false,
        files: Vec::new(),
        json: false,
    };
    let request = resolve_duplicates(&plan(), &seeded_args);
    assert!(request.seeded(), "--since derives a seed set");
    match &request.seeds {
        Some(ChangedFiles::Diff(args)) => assert_eq!(args, &vec!["diff", "--name-only", "HEAD"]),
        _ => panic!("git is asked"),
    }
    let changed = vec!["new.ts".to_string()];
    let seeded_clusters = find_duplicates(&two_pairs(""), Some(changed), request.knobs);
    let unseeded = resolve_duplicates(&plan(), &DuplicatesArgs { since: None, ..seeded_args });
    assert!(!unseeded.seeded());
    let all = find_duplicates(&two_pairs(""), None, unseeded.knobs);

    assert_eq!(seeded_clusters.len(), 1, "exactly the seeded file's cluster surfaces, got {seeded_clusters:?}");
    let found = paths(&seeded_clusters[0]);
    assert!(found.contains(&"new.ts"), "the changed seed is present");
    assert!(found.contains(&"existing.ts"), "the untouched code the seed duplicates is pulled in");
    assert!(
        !found.contains(&"old_a.ts") && !found.contains(&"old_b.ts"),
        "the untouched-only pre-existing pair does NOT seed"
    );
    assert_eq!(all.len(), 2, "the full unseeded scan reports both pairs");
}

#[test]
fn find_similar_location_excludes_self() {
    let rows = vec![
        row(1, "src/a.ts", 10, vec![1.0, 0.0, 0.0, 0.0]),
        row(2, "src/b.ts", 1, vec![0.99, 0.01, 0.0, 0.0]),
    ];
    let search = SimilarSearch {
        target: SimilarTarget::Location { path: "src/a.ts".to_string(), line: 10 },
        limit: 8,
        min_score: score(0.0),
    };
    let found = match search.lookup() {
        Lookup::Locate { path, line } => rows
            .iter()
            .find(|r| r.path == path && r.start_line == line)
            .map(|r| (hit_of(r, 1.0), r.vector.clone())),
        Lookup::Embed(_) => panic!("a place is looked up"),
    };
    let nearest = search.nearest(Found::Chunk(found)).unwrap_or_else(|e| panic!("{}", e.message()));
    let hits = search.answer(query_by_vector(&rows, &nearest.vector, nearest.limit, nearest.exclude_id));
    assert!(hits.iter().all(|h| h.id != 1), "self id excluded");
    assert_eq!(hits.len(), 1, "only the other chunk");
    assert_eq!(hits[0].id, 2);
}

#[test]
fn get_by_location_returns_row_and_vector() {
    let rows = vec![
        row(1, "src/a.ts", 10, vec![0.1, 0.2, 0.3, 0.4]),
        row(2, "src/b.ts", 20, vec![0.5, 0.6, 0.7, 0.8]),
    ];
    let search = |line: usize| SimilarSearch {
        target: SimilarTarget::Location { path: "src/b.ts".to_string(), line },
        limit: 8,
        min_score: score(0.0),
    };
    let at = |line: usize| {
        rows.iter()
            .find(|r| r.path == "src/b.ts" && r.start_line == line)
            .map(|r| (hit_of(r, 1.0), r.vector.clone()))
    };
    let got = search(20).nearest(Found::Chunk(at(20))).unwrap_or_else(|e| panic!("{}", e.message()));
    assert_eq!(got.exclude_id, Some(2));
    assert_eq!(got.vector, vec![0.5, 0.6, 0.7, 0.8], "exact stored vector");
    match search(999).nearest(Found::Chunk(at(999))) {
        Ok(_) => panic!("no chunk at that line"),
        Err(e) => assert_eq!(e.message(), "no indexed chunk at src/b.ts:999"),
    }
}

#[test]
fn a_snippet_is_embedded_and_leaves_nothing_out() {
    let search = SimilarSearch {
        target: SimilarTarget::Code("fn f() {}".to_string()),
        limit: 3,
        min_score: score(0.5),
    };
    match search.lookup() {
        Lookup::Embed(code) => assert_eq!(code, "fn f() {}"),
        Lookup::Locate { .. } => panic!("a snippet is embedded"),
    }
    let nearest = search.nearest(Found::Vector(vec![1.0f32])).unwrap_or_else(|e| panic!("{}", e.message()));
    assert_eq!(nearest.exclude_id, None);
    assert_eq!(nearest.limit, 3);
}

/// A seeded scan asks for each seed once, in order, and for no other chunk.
#[test]
fn a_scan_asks_for_seeds_only() {
    let row = |id: u64, path: &str| Row { id, path: path.to_string(), start_line: 1, vector: vec![1.0, 0.0] };
    let rows = [row(1, "a.ts"), row(2, "b.ts"), row(3, "a.ts"), row(4, "c.ts")];
    let chunks: Vec<(Hit, Vec<f32>)> = rows.iter().map(|r| (hit_of(r, 1.0), r.vector.clone())).collect();
    let mut scan = DuplicateScan::new(chunks, Some(vec!["a.ts".to_string()]), knobs());
    let mut asked = Vec::new();
    loop {
        match scan.wanted() {
            Some(w) => {
                assert_eq!(w.limit, 10);
                asked.push(w.exclude_id);
            }
            None => break,
        }
        scan.take(Vec::new());
    }
    assert_eq!(asked, vec![1, 3]);
    assert!(scan.finish().is_empty());
}
