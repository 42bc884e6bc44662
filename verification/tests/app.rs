//! The steps of the commands, and what they print.

use semanticastindexer::app::open::{OpenAction, OpenReply, OpenRun, OpenStep};
use semanticastindexer::app::report::{
    confirmed, dirty_check, duplicates_header, finish_line, hit_line, index_summary, is_yes, member_line, neighbour_line,
    rebuild_question, resolve_duplicates, similar_min_score, similar_target, sync_report, wal_path, DirtyCheck,
    ProgressDisplay, SimilarError,
};
use semanticastindexer::app::steps::{command_steps, CommandRun, Step};
use semanticastindexer::app::update::{
    decide_update, installer_command, latest_release_version, version_of_tag, windows_update_notice,
};
use semanticastindexer::cli::{Args, Cmd, DuplicatesArgs, InitArgs, McpArgs, SimilarArgs, SyncArgs};
use semanticastindexer::config::{build_plan, Config, Plan};
use semanticastindexer::domain::{
    DupMember, Hit, IndexProgress, IndexReport, RefreshReport, ReindexOutcome, SimilarTarget,
};
use semanticastindexer::factory::{build_store, FactoryError, StoreChoice};
use semanticastindexer::git::{ChangedFiles, GitContext};
use semanticastindexer::score::Score;
use semanticastindexer::vectordbs::embedder::Embedder;
use semanticastindexer::vectordbs::duckdb::DimMismatch;
use semanticastindexer::vectordbs::{Access, Features, OpenError};

fn score(x: f32) -> Score {
    Score::from_bits(x.to_bits())
}

fn args(command: Option<Cmd>) -> Args {
    Args {
        command,
        root: "src".to_string(),
        ext: vec!["ts".to_string(), "rs".to_string()],
        backend: None,
        embedder: None,
        chunker: None,
        config: None,
        collection: Some("code".to_string()),
        model: None,
        query: None,
        query_only: false,
        recreate: false,
        dry_run: false,
        limit: 5,
        silent: false,
        verbose: 0,
        log_format: None,
        timing: false,
    }
}

fn plan(backend: &str, embedder: Option<&str>, ollama_model: Option<&str>) -> Plan {
    let mut args = args(None);
    args.backend = Some(backend.to_string());
    args.embedder = embedder.map(|s| s.to_string());
    let mut config = Config::default();
    config.ollama.model = ollama_model.map(|s| s.to_string());
    match build_plan(&args, &config, false) {
        Ok(p) => p,
        Err(e) => panic!("{}", e.message()),
    }
}

fn all_features() -> Features {
    Features { qdrant: true, duckdb: true, ort: true, ollama: true, ast: true, mcp_http: true }
}

fn hit() -> Hit {
    Hit {
        id: 1,
        path: "src/a.ts".to_string(),
        language: "ts".to_string(),
        start_line: 3,
        end_line: 9,
        text: String::new(),
        score: score(0.5),
        symbol: Some("f".to_string()),
        commit_sha: None,
        dirty: false,
        no_duplicate: false,
    }
}

/// Runs a command whose step number `fail` fails, and returns the steps made and the outcome.
fn drive(args: &Args, fail: Option<usize>) -> (Vec<Step>, Result<(), String>) {
    let mut run: CommandRun<String> = CommandRun::new(args);
    let mut made = Vec::new();
    while let Some(step) = run.action() {
        let outcome = if fail == Some(made.len()) { Err(format!("{step:?}")) } else { Ok(()) };
        made.push(step);
        run = run.step(outcome);
    }
    let outcome = run.outcome();
    (made, outcome)
}

#[test]
fn flush_invokes_backend_flush() {
    let (made, outcome) = drive(&args(Some(Cmd::Flush)), None);
    assert!(outcome.is_ok());
    assert_eq!(made.iter().filter(|s| **s == Step::Flush).count(), 1, "flush called exactly once");
    assert_eq!(
        made,
        vec![
            Step::CaptureGit,
            Step::BuildPlan,
            Step::CheckChunker,
            Step::Open { access: Access::ReadWrite, offer_rebuild: false },
            Step::Flush,
            Step::Close,
            Step::Finish { dry_run: false },
        ]
    );
}

#[test]
fn init_and_update_need_no_config() {
    let init = InitArgs { yes: true, force: false, output: "sai-cfg.yml".to_string() };
    assert_eq!(command_steps(&args(Some(Cmd::Init(init)))), vec![Step::Init]);
    assert_eq!(command_steps(&args(Some(Cmd::Update))), vec![Step::Update]);
}

#[test]
fn a_failed_command_closes_and_reports() {
    let sync = SyncArgs { since: "HEAD~1".to_string(), staged: false, files: Vec::new() };
    let (made, outcome) = drive(&args(Some(Cmd::Sync(sync))), Some(4));
    assert_eq!(outcome.unwrap_err(), "EnsureReady { recreate: false }");
    assert_eq!(made[4..], [Step::EnsureReady { recreate: false }, Step::Close, Step::Finish { dry_run: false }]);
}

#[test]
fn a_store_that_does_not_open_is_not_closed() {
    let (made, outcome) = drive(&args(Some(Cmd::Flush)), Some(3));
    assert!(outcome.is_err());
    assert_eq!(made[4..], [Step::Finish { dry_run: false }]);
}

#[test]
fn a_bad_config_ends_the_command() {
    let (made, outcome) = drive(&args(Some(Cmd::Flush)), Some(1));
    assert_eq!(outcome.unwrap_err(), "BuildPlan");
    assert_eq!(made, vec![Step::CaptureGit, Step::BuildPlan]);
}

#[test]
fn index_then_query() {
    let mut a = args(None);
    a.query = Some("where".to_string());
    a.recreate = true;
    let (made, _) = drive(&a, None);
    assert_eq!(
        made[3..],
        [
            Step::Open { access: Access::ReadWrite, offer_rebuild: true },
            Step::EnsureReady { recreate: true },
            Step::Index,
            Step::Query,
            Step::Close,
            Step::Finish { dry_run: false },
        ]
    );
    a.query_only = true;
    let (made, _) = drive(&a, None);
    assert!(!made.contains(&Step::Index));
    assert!(made.contains(&Step::Open { access: Access::ReadWrite, offer_rebuild: false }));
    a.dry_run = true;
    let (made, _) = drive(&a, None);
    assert_eq!(made[3..], [Step::DryRun, Step::Finish { dry_run: true }]);
}

#[test]
fn the_server_opens_for_writing_only_with_leave() {
    let mcp = |allow_write: bool| McpArgs { allow_write, allow_setup: false, http: None };
    let (made, _) = drive(&args(Some(Cmd::Mcp(mcp(false)))), None);
    assert!(made.contains(&Step::Open { access: Access::ReadOnly, offer_rebuild: false }));
    assert!(!made.contains(&Step::EnsureReady { recreate: false }));
    let (made, _) = drive(&args(Some(Cmd::Mcp(mcp(true)))), None);
    assert!(made.contains(&Step::Open { access: Access::ReadWrite, offer_rebuild: false }));
    assert!(made.contains(&Step::EnsureReady { recreate: false }));
    assert!(made.contains(&Step::Serve { http: false }));
    assert!(!made.contains(&Step::Close));
}

#[test]
fn stores_follow_backend_and_embedder() {
    let f = all_features();
    assert!(matches!(
        build_store(&plan("qdrant", None, None), Access::ReadOnly, &f),
        Ok(StoreChoice::QdrantServer)
    ));
    assert!(matches!(
        build_store(&plan("qdrant", Some("ort"), None), Access::ReadOnly, &f),
        Ok(StoreChoice::QdrantLocal(Embedder::Ort { .. }))
    ));
    match build_store(&plan("duckdb", Some("ollama"), Some("nomic-embed-text")), Access::ReadOnly, &f) {
        Ok(StoreChoice::DuckDb { embedder: Embedder::Ollama(e), access }) => {
            assert_eq!(e.model, "nomic-embed-text");
            assert_eq!(access, Access::ReadOnly);
        }
        _ => panic!("duckdb with ollama"),
    }
}

#[test]
fn stores_that_cannot_be_had() {
    let none = Features { qdrant: false, duckdb: false, ort: false, ollama: false, ast: false, mcp_http: false };
    let told = |p: &Plan, f: &Features| match build_store(p, Access::ReadWrite, f) {
        Ok(_) => panic!("must fail"),
        Err(e) => e.message(),
    };
    assert!(told(&plan("qdrant", None, None), &none).contains("without the 'qdrant' feature"));
    assert!(told(&plan("duckdb", None, None), &none).contains("without the 'duckdb' feature"));
    let mut bare = none;
    bare.qdrant = true;
    bare.duckdb = true;
    assert!(told(&plan("qdrant", Some("ort"), None), &bare).contains("--features qdrant,ort (or qdrant,ollama)"));
    assert!(told(&plan("duckdb", Some("ort"), None), &bare).contains("without the 'ort' feature"));
    assert!(told(&plan("duckdb", Some("ollama"), None), &bare).contains("without the 'ollama' feature"));
    assert!(told(&plan("duckdb", Some("ollama"), Some("")), &all_features()).contains("ollama.model"));
    assert!(told(&plan("duckdb", Some("magic"), None), &all_features()).contains("unknown embedder 'magic'"));
    assert!(matches!(
        build_store(&plan("qdrant", Some("magic"), None), Access::ReadWrite, &all_features()),
        Err(FactoryError::UnknownQdrantEmbedder(_))
    ));
    assert_eq!(
        told(&plan("sqlite", None, None), &all_features()),
        "unknown backend 'sqlite' (expected 'qdrant' or 'duckdb')"
    );
}

#[test]
fn release_versions_are_read_from_json() {
    let body = br#"{"url": "x", "tag_name": "v0.9.1", "draft": false}"#;
    assert_eq!(latest_release_version(Some(body)).as_deref(), Some("0.9.1"));
    assert_eq!(latest_release_version(Some(br#"{"tag_name": 9}"#)), None);
    assert_eq!(latest_release_version(Some(br#"{"name": "v1"}"#)), None);
    assert_eq!(latest_release_version(Some(b"rate limited")), None);
    assert_eq!(latest_release_version(None), None);
    assert_eq!(version_of_tag("vv1.0"), "1.0");
    assert_eq!(version_of_tag("1.0-v"), "1.0-v");
}

#[test]
fn updates_are_skipped_where_current() {
    let u = decide_update("sai", "0.9.1", Some("0.9.1"));
    assert!(!u.install);
    assert_eq!(u.message, "sai 0.9.1 is already the latest release — nothing to do.");
    let u = decide_update("sai", "0.9.1", Some("0.9.2"));
    assert!(u.install);
    assert_eq!(u.message, "sai 0.9.1 → 0.9.2 — updating…");
    let u = decide_update("sai", "0.9.1", None);
    assert!(u.install);
    assert_eq!(u.message, "sai 0.9.1 — updating to the latest release…");
    assert!(windows_update_notice("sai", "0.9.1", Some("0.9.1")).contains("nothing to do"));
    assert!(windows_update_notice("sai", "0.9.1", None).contains("powershell -c \"irm https://"));
    assert!(installer_command().starts_with("curl -fsSL https://"));
}

#[test]
fn finish_names_commit_and_state() {
    let f = finish_line(&GitContext { sha: Some("abc123".to_string()), dirty: true }, false);
    assert_eq!((f.sha.as_str(), f.message.as_str()), ("abc123", "done, dirty"));
    let f = finish_line(&GitContext { sha: None, dirty: false }, true);
    assert_eq!((f.sha.as_str(), f.message.as_str()), ("unknown", "done (dry-run)"));
}

#[test]
fn only_yes_is_yes() {
    for yes in ["y", " Y\n", "yes", "YES\r\n"] {
        assert!(is_yes(yes), "{yes:?}");
    }
    for no in ["", "\n", "n", "yep", "y e s"] {
        assert!(!is_yes(no), "{no:?}");
    }
    assert!(rebuild_question("a.duckdb").contains("'a.duckdb'"));
    assert_eq!(wal_path("a.duckdb"), "a.duckdb.wal");
}

fn mismatch() -> OpenError {
    OpenError::Mismatch(DimMismatch { duckdb_path: "a.duckdb".to_string(), message: "other size".to_string() })
}

/// Opens with the answer given, and returns what was done and what came of it.
fn open_with(offer: bool, answer: bool) -> (Vec<String>, Result<u8, String>) {
    let mut done = Vec::new();
    let mut run = OpenRun::new(offer);
    loop {
        let reply: OpenReply<u8> = match run.action() {
            OpenAction::Open => {
                done.push("open".to_string());
                OpenReply::Opened(if done.len() == 1 { Err(mismatch()) } else { Ok(7) })
            }
            OpenAction::Ask(q) => {
                assert!(q.contains("'a.duckdb'"));
                done.push("ask".to_string());
                OpenReply::Answered(Ok(answer))
            }
            OpenAction::Delete { file, wal } => {
                done.push(format!("delete {file} {wal}"));
                OpenReply::Deleted(Ok(()))
            }
        };
        match run.step(reply) {
            OpenStep::More(next) => run = next,
            OpenStep::Done(store) => return (done, Ok(store)),
            OpenStep::Failed(OpenError::Mismatch(m)) => return (done, Err(m.message)),
            OpenStep::Failed(OpenError::Other(m)) => return (done, Err(m)),
        }
    }
}

#[test]
fn a_mismatched_index_goes_only_with_a_yes() {
    let (done, store) = open_with(true, true);
    assert_eq!(done, vec!["open", "ask", "delete a.duckdb a.duckdb.wal", "open"]);
    assert_eq!(store, Ok(7));
    let (done, store) = open_with(true, false);
    assert_eq!(done, vec!["open", "ask"]);
    assert_eq!(store, Err("other size".to_string()));
    let (done, store) = open_with(false, true);
    assert_eq!(done, vec!["open"]);
    assert_eq!(store, Err("other size".to_string()));
    assert!(confirmed(true, "yes\n"));
    assert!(!confirmed(false, "yes\n"), "nobody was asked");
}

#[test]
fn dirty_indexes_are_pointed_out() {
    assert!(matches!(dirty_check(true, Some(true), true), DirtyCheck::Proceed));
    assert!(matches!(dirty_check(false, Some(false), true), DirtyCheck::Proceed));
    assert!(matches!(dirty_check(false, None, true), DirtyCheck::Proceed));
    match dirty_check(false, Some(true), true) {
        DirtyCheck::Ask(q) => assert!(q.ends_with("Proceed?")),
        _ => panic!("a terminal is asked"),
    }
    match dirty_check(false, Some(true), false) {
        DirtyCheck::Warn(w) => assert!(w.starts_with("warning: index contains dirty chunks")),
        _ => panic!("a pipe is warned"),
    }
}

fn progress(path: &str, files_done: usize, chunks_done: usize) -> IndexProgress {
    IndexProgress { files_done, files_total: 2, chunks_done, chunks_total: 100, path: path.to_string() }
}

#[test]
fn progress_announces_each_file_once() {
    let mut d = ProgressDisplay::new(true, false);
    assert_eq!(
        d.show(&progress("a.ts", 1, 64)),
        "\r\x1b[K  [ 1/2 files ] indexing a.ts\n\rembedded 64/100 chunks"
    );
    assert_eq!(d.show(&progress("a.ts", 1, 80)), "\rembedded 80/100 chunks");
    assert_eq!(
        d.show(&progress("b.ts", 2, 100)),
        "\r\x1b[K  [ 2/2 files ] indexing b.ts\n\rembedded 100/100 chunks"
    );
    assert!(d.emitted);
    let mut quiet = ProgressDisplay::new(true, true);
    assert_eq!(quiet.show(&progress("a.ts", 1, 64)), "");
    assert!(!quiet.emitted);
}

#[test]
fn summaries() {
    let report = IndexReport { chunks: 12, files: 3, skipped: 1 };
    assert_eq!(
        index_summary(&report, &plan("duckdb", None, None)),
        "indexed 12 chunks from 3 ts/rs file(s) into 'code' (1 file(s) skipped by config)"
    );
    let report = RefreshReport {
        entries: vec![
            ("a.ts".to_string(), ReindexOutcome::Reindexed { chunks: 3 }),
            ("b.ts".to_string(), ReindexOutcome::Removed { reason: "removed" }),
            ("c.ts".to_string(), ReindexOutcome::Reindexed { chunks: 4 }),
        ],
    };
    assert_eq!(
        sync_report(&report),
        vec![
            "  + a.ts (3 chunks)",
            "  - b.ts (removed)",
            "  + c.ts (4 chunks)",
            "sync: 2 file(s) re-indexed (7 chunks), 1 file(s) removed",
        ]
    );
}

fn duplicates_args() -> DuplicatesArgs {
    DuplicatesArgs {
        min_score: None,
        min_cluster_size: Some(0),
        top_k: None,
        path_glob: None,
        max_clusters: None,
        since: None,
        staged: false,
        files: Vec::new(),
        json: false,
    }
}

/// Without seeds a scan is unseeded, and every value that the flags leave open is the plan's.
#[test]
fn unset_duplicate_knobs_are_those_of_the_plan() {
    let request = resolve_duplicates(&plan("duckdb", None, None), &duplicates_args());
    assert!(!request.seeded(), "unseeded scan");
    assert_eq!(request.knobs.min_score, score(0.93));
    assert_eq!(request.knobs.min_cluster_size, 1);
    assert_eq!(request.knobs.top_k, 10);
    assert_eq!(request.knobs.max_clusters, 50);
}

#[test]
fn staged_files_seed() {
    let mut a = duplicates_args();
    a.staged = true;
    match resolve_duplicates(&plan("duckdb", None, None), &a).seeds {
        Some(ChangedFiles::Diff(list)) => assert_eq!(list, vec!["diff", "--name-only", "--cached"]),
        _ => panic!("git is asked"),
    }
    a.files = vec!["a.ts".to_string()];
    match resolve_duplicates(&plan("duckdb", None, None), &a).seeds {
        Some(ChangedFiles::Explicit(list)) => assert_eq!(list, vec!["a.ts"]),
        _ => panic!("the files are taken"),
    }
}

#[test]
fn printed_rows() {
    let knobs = resolve_duplicates(&plan("duckdb", None, None), &duplicates_args()).knobs;
    assert_eq!(
        duplicates_header(&knobs, "0.93", 0),
        "no near-duplicate clusters (min_score 0.93, min_cluster_size 1, top_k 10)"
    );
    assert_eq!(
        duplicates_header(&knobs, "0.93", 2),
        "2 near-duplicate cluster(s) (min_score 0.93, min_cluster_size 1, top_k 10):"
    );
    let member = DupMember { path: "a.ts".to_string(), start_line: 1, end_line: 5, symbol: None };
    assert_eq!(member_line(&member), "  a.ts:1-5  ");
    assert_eq!(hit_line(&hit(), "0.5000"), "  0.5000  src/a.ts:3-9");
    assert_eq!(neighbour_line(&hit(), "0.5000"), "  0.5000  src/a.ts:3-9  f");
}

fn similar(code: Option<&str>, path: Option<&str>, line: Option<usize>) -> SimilarArgs {
    SimilarArgs {
        code: code.map(|s| s.to_string()),
        path: path.map(|s| s.to_string()),
        line,
        limit: 8,
        min_score: None,
    }
}

#[test]
fn similar_takes_exactly_one_target() {
    assert!(matches!(similar_target(&similar(Some("x"), None, None)), Ok(SimilarTarget::Code(_))));
    assert!(matches!(
        similar_target(&similar(None, Some("a.ts"), Some(3))),
        Ok(SimilarTarget::Location { .. })
    ));
    let told = |a: SimilarArgs| similar_target(&a).unwrap_err();
    assert_eq!(told(similar(Some("x"), None, Some(3))), SimilarError::Both);
    assert_eq!(told(similar(Some("x"), Some("a.ts"), Some(3))), SimilarError::Both);
    assert_eq!(told(similar(None, Some("a.ts"), None)), SimilarError::HalfPlace);
    assert_eq!(told(similar(None, None, Some(3))), SimilarError::HalfPlace);
    assert_eq!(told(similar(None, None, None)), SimilarError::Neither);
    assert_eq!(SimilarError::HalfPlace.message(), "similar: --path and --line must be given together");
    assert_eq!(similar_min_score(&plan("duckdb", None, None), &similar(None, None, None)), score(0.85));
}

#[test]
fn searches_open_for_reading_and_writers_for_writing() {
    let reading = Step::Open { access: Access::ReadOnly, offer_rebuild: false };
    for command in [Cmd::Duplicates(duplicates_args()), Cmd::Similar(similar(Some("fn f() {}"), None, None))] {
        let steps = command_steps(&args(Some(command)));
        assert_eq!(steps[3], reading);
        assert!(!steps.contains(&Step::EnsureReady { recreate: false }));
        assert!(!steps.contains(&Step::Index));
    }
    let steps = command_steps(&args(Some(Cmd::Flush)));
    let opened = steps.iter().position(|s| *s == Step::Open { access: Access::ReadWrite, offer_rebuild: false });
    let flushed = steps.iter().position(|s| *s == Step::Flush);
    assert!(opened.is_some() && opened < flushed);
}
