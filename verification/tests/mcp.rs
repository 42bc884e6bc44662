//! The tools of the server.

use semanticastindexer::cli::Args;
use semanticastindexer::config::{build_plan, Config, Plan};
use semanticastindexer::domain::{Hit, RefreshReport, ReindexOutcome, SimilarTarget};
use semanticastindexer::git::ChangedFiles;
use semanticastindexer::mcp::{
    clamp_limit, compile_glob_opt, language_ok, model_label, refresh_result, search_limits, search_rows, snippet_of,
    to_search_hit, FindDuplicatesArgs, FindSimilarArgs, PrepareMcpSetupArgs, RefreshArgs, SaiServer, SearchCodeArgs,
    SetupExecution, SyncArgs, SyncWork, MAX_LIMIT, SNIPPET_LINES,
};
use semanticastindexer::score::Score;

fn score(x: f32) -> Score {
    Score::from_bits(x.to_bits())
}

fn plan(backend: &str, embedder: &str) -> Plan {
    let args = Args {
        command: None,
        root: "src".to_string(),
        ext: vec!["ts".to_string()],
        backend: Some(backend.to_string()),
        embedder: Some(embedder.to_string()),
        chunker: None,
        config: None,
        collection: Some("code".to_string()),
        model: Some("the-model".to_string()),
        query: None,
        query_only: false,
        recreate: false,
        dry_run: false,
        limit: 5,
        silent: false,
        verbose: 0,
        log_format: None,
        timing: false,
    };
    let mut config = Config::default();
    config.ollama.model = Some("nomic-embed-text".to_string());
    match build_plan(&args, &config, false) {
        Ok(p) => p,
        Err(e) => panic!("{}", e.message()),
    }
}

fn server(allow_write: bool, allow_setup: bool) -> SaiServer {
    SaiServer::new(&plan("duckdb", "ort"), allow_write, allow_setup)
}

fn hit(id: u64, path: &str, language: &str, text: &str) -> Hit {
    Hit {
        id,
        path: path.to_string(),
        language: language.to_string(),
        start_line: 3,
        end_line: 9,
        text: text.to_string(),
        score: score(0.5),
        symbol: Some("f".to_string()),
        commit_sha: None,
        dirty: false,
        no_duplicate: false,
    }
}

fn search_args(language: Option<&str>, path_glob: Option<&str>, include_text: bool) -> SearchCodeArgs {
    SearchCodeArgs {
        query: "q".to_string(),
        limit: None,
        language: language.map(|s| s.to_string()),
        path_glob: path_glob.map(|s| s.to_string()),
        include_text,
    }
}

#[test]
fn snippet_caps_lines() {
    let text = (0..20).map(|i| format!("line{i}")).collect::<Vec<_>>().join("\n");
    let snip = snippet_of(&text);
    assert_eq!(snip.lines().count(), SNIPPET_LINES, "capped to 8 lines");
}

#[test]
fn clamp_limit_bounds() {
    assert_eq!(clamp_limit(0), 1);
    assert_eq!(clamp_limit(8), 8);
    assert_eq!(clamp_limit(9999), MAX_LIMIT);
}

/// A long snippet is cut at a character, never inside one, and says so.
#[test]
fn snippets_are_cut_at_characters() {
    assert_eq!(snippet_of(&"x".repeat(800)), "x".repeat(800));
    assert_eq!(snippet_of(&"x".repeat(801)), format!("{}…", "x".repeat(800)));
    let wide = format!("x{}", "é".repeat(400));
    assert_eq!(snippet_of(&wide), format!("x{}…", "é".repeat(399)));
    assert!(snippet_of(&wide).len() <= 803);
    assert_eq!(snippet_of(""), "");
}

#[test]
fn rows_are_filtered_then_cut() {
    let hits = || {
        vec![
            hit(1, "src/a.ts", "ts", "a"),
            hit(2, "src/b.rs", "rs", "b"),
            hit(3, "lib/c.ts", "ts", "c"),
            hit(4, "src/d.ts", "ts", "d"),
            hit(5, "src/e.ts", "ts", "e"),
        ]
    };
    let args = search_args(Some("ts"), Some("src/**"), false);
    let filter = compile_glob_opt(&args.path_glob).ok().unwrap();
    let rows = search_rows(hits(), &args, &filter, 2);
    assert_eq!(rows.iter().map(|r| r.path.as_str()).collect::<Vec<_>>(), vec!["src/a.ts", "src/d.ts"]);
    let all = search_rows(hits(), &search_args(None, None, false), &None, 50);
    assert_eq!(all.len(), 5);
    assert!(language_ok(&hit(1, "a", "ts", ""), &None));
    assert!(!language_ok(&hit(1, "a", "ts", ""), &Some("rs".to_string())));
}

#[test]
fn whole_texts_on_request() {
    let text = (0..20).map(|i| format!("line{i}")).collect::<Vec<_>>().join("\n");
    let whole = to_search_hit(hit(1, "a", "ts", &text), true);
    assert_eq!(whole.snippet, text);
    assert_eq!((whole.start_line, whole.end_line), (3, 9));
    assert_eq!(whole.symbol.as_deref(), Some("f"));
    let cut = to_search_hit(hit(1, "a", "ts", &text), false);
    assert_eq!(cut.snippet.lines().count(), 8);
}

#[test]
fn limits_leave_room_for_filtering() {
    assert_eq!(search_limits(None), (8, 32));
    assert_eq!(search_limits(Some(20)), (20, 50));
    assert_eq!(search_limits(Some(0)), (1, 4));
    assert_eq!(search_limits(Some(u64::MAX)), (50, 50));
}

#[test]
fn a_bad_path_glob_is_refused() {
    let err = match compile_glob_opt(&Some("{a".to_string())) {
        Err(e) => e.message,
        Ok(_) => panic!("unclosed group"),
    };
    let reason = globset::Glob::new("{a").unwrap_err().to_string();
    assert_eq!(err, format!("invalid path_glob '{{a': {reason}"));
    let deep = format!("{}{}", "{".repeat(100_000), "}".repeat(100_000));
    match compile_glob_opt(&Some(deep.clone())) {
        Err(e) => assert_eq!(e.message, format!("invalid path_glob '{deep}': the pattern is too large")),
        Ok(_) => panic!("too deep"),
    }
}

fn similar(code: Option<&str>, path: Option<&str>, line: Option<usize>) -> FindSimilarArgs {
    FindSimilarArgs {
        code: code.map(|s| s.to_string()),
        path: path.map(|s| s.to_string()),
        line,
        limit: None,
        min_score: None,
    }
}

#[test]
fn similar_needs_a_target() {
    let s = server(false, false);
    match s.similar_target(&similar(Some("fn f() {}"), Some("a.ts"), None)) {
        Ok(SimilarTarget::Code(c)) => assert_eq!(c, "fn f() {}"),
        _ => panic!("the snippet is taken"),
    }
    match s.similar_target(&similar(None, Some("a.ts"), Some(3))) {
        Ok(SimilarTarget::Location { path, line }) => assert_eq!((path.as_str(), line), ("a.ts", 3)),
        _ => panic!("the place is taken"),
    }
    let err = s.similar_target(&similar(None, Some("a.ts"), None)).unwrap_err();
    assert_eq!(err.message, "sai_find_similar requires either `code` or both `path` and `line`");
    let remote = SaiServer::new(&plan("qdrant", "qdrant"), false, false);
    let err = remote.similar_target(&similar(Some("x"), None, None)).unwrap_err();
    assert_eq!(err.message, "sai_find_similar { code } requires a local embedder (duckdb backend)");
    assert_eq!(s.similar_min_score(&similar(None, None, None)), score(0.85));
    assert_eq!(s.similar_limit(&similar(None, None, None)), 8);
}

#[test]
fn duplicate_knobs_fall_back_to_the_plan() {
    let s = server(false, false);
    let mut args = FindDuplicatesArgs {
        min_score: None,
        min_cluster_size: None,
        path_glob: None,
        max_clusters: None,
        top_k: None,
    };
    let k = s.duplicate_knobs(&args);
    assert_eq!((k.min_score, k.min_cluster_size, k.top_k, k.max_clusters), (score(0.93), 2, 10, 50));
    args.min_score = Some(score(0.5));
    args.min_cluster_size = Some(0);
    args.top_k = Some(500);
    args.max_clusters = Some(3);
    let k = s.duplicate_knobs(&args);
    assert_eq!((k.min_score, k.min_cluster_size, k.top_k, k.max_clusters), (score(0.5), 1, 50, 3));
}

#[test]
fn status_names_the_model() {
    let status = server(false, false).index_status(7);
    assert_eq!(status.backend, "duckdb");
    assert_eq!(status.collection, "code");
    assert_eq!(status.model, "the-model");
    assert_eq!(status.chunk_count, 7);
    assert_eq!(model_label(&plan("duckdb", "ollama")), "nomic-embed-text");
    assert_eq!(model_label(&plan("qdrant", "ollama")), "the-model");
}

#[test]
fn refresh_is_bounded() {
    let paths = |n: usize| RefreshArgs { paths: (0..n).map(|i| format!("f{i}.ts")).collect() };
    let err = server(false, false).check_refresh(&paths(1)).unwrap_err();
    assert_eq!(err.message, "server is read-only; restart with --allow-write to enable refresh");
    let s = server(true, false);
    assert_eq!(s.check_refresh(&paths(0)).unwrap_err().message, "refresh requires at least one path");
    assert_eq!(s.check_refresh(&paths(201)).unwrap_err().message, "too many paths (max 200)");
    assert!(s.check_refresh(&paths(200)).is_ok());
}

#[test]
fn sync_compares_with_the_last_commit() {
    let mut args = SyncArgs { since: None, staged: false, paths: Vec::new() };
    let err = server(false, false).sync_source(&args).unwrap_err();
    assert_eq!(err.message, "server is read-only; restart with --allow-write to enable sync");
    let s = server(true, false);
    match s.sync_source(&args) {
        Ok(ChangedFiles::Diff(list)) => assert_eq!(list, vec!["diff", "--name-only", "HEAD~1"]),
        _ => panic!("git is asked"),
    }
    args.paths = vec!["a.ts".to_string()];
    match s.sync_source(&args) {
        Ok(ChangedFiles::Explicit(list)) => assert_eq!(list, vec!["a.ts"]),
        _ => panic!("the paths are taken"),
    }
    assert!(matches!(s.sync_work(Vec::new()), Ok(SyncWork::Nothing)));
    match s.sync_work(vec!["a.ts".to_string()]) {
        Ok(SyncWork::Refresh(p)) => assert_eq!(p, vec!["a.ts"]),
        _ => panic!("there is work"),
    }
    let many: Vec<String> = (0..201).map(|i| format!("f{i}")).collect();
    assert_eq!(
        s.sync_work(many).unwrap_err().message,
        "too many changed files (201; max 200). Narrow `since` or pass explicit `paths`."
    );
}

#[test]
fn refreshed_and_removed_are_told_apart() {
    let report = RefreshReport {
        entries: vec![
            ("a.ts".to_string(), ReindexOutcome::Reindexed { chunks: 3 }),
            ("b.ts".to_string(), ReindexOutcome::Removed { reason: "removed" }),
            ("c.ts".to_string(), ReindexOutcome::Reindexed { chunks: 1 }),
        ],
    };
    let r = refresh_result(report);
    assert_eq!(r.refreshed, vec![("a.ts".to_string(), 3), ("c.ts".to_string(), 1)]);
    assert_eq!(r.removed, vec!["b.ts"]);
}

fn setup_args(execute: bool) -> PrepareMcpSetupArgs {
    PrepareMcpSetupArgs {
        target_directory: None,
        backend: None,
        embedder: None,
        use_ast_chunker: true,
        install_globally: true,
        execute,
    }
}

#[test]
fn setup_command_names_the_features() {
    let s = server(false, true);
    let p = s.prepare_setup(&setup_args(true), Some("/work"), Some("/opt/setup.sh"));
    assert_eq!(p.target_directory, "/work");
    assert_eq!(
        p.recommended_command,
        "/opt/setup.sh --non-interactive --backend duckdb --embedder ollama --target-dir \"/work\" --features \"mcp,duckdb,ollama,ast\" --install-global"
    );
    assert!(matches!(p.execution, SetupExecution::Run));
    let mut args = setup_args(false);
    args.backend = Some("qdrant".to_string());
    args.use_ast_chunker = false;
    args.install_globally = false;
    args.target_directory = Some("/t".to_string());
    let p = s.prepare_setup(&args, Some("/work"), Some("/opt/setup.sh"));
    assert_eq!(
        p.recommended_command,
        "/opt/setup.sh --non-interactive --backend qdrant --embedder ollama --target-dir \"/t\" --features \"mcp,qdrant\""
    );
    assert!(matches!(p.execution, SetupExecution::NotAsked));
}

#[test]
fn setup_is_not_run_without_leave_or_script() {
    let p = server(false, false).prepare_setup(&setup_args(true), None, Some("/opt/setup.sh"));
    assert_eq!(p.target_directory, ".");
    match p.execution {
        SetupExecution::Blocked(reason) => assert_eq!(reason, "Server not started with --allow-setup"),
        _ => panic!("not allowed"),
    }
    let p = server(false, true).prepare_setup(&setup_args(true), None, None);
    assert!(p.recommended_command.starts_with("curl -fsSL "));
    match p.execution {
        SetupExecution::Blocked(reason) => assert!(reason.contains("run the curl installer manually")),
        _ => panic!("no script"),
    }
}
