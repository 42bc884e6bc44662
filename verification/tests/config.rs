//! Resolving flags and config into a plan.

use globset::GlobSetBuilder;
use semanticastindexer::chunking::is_wanted;
use semanticastindexer::cli::{Args, LogFormat};
use semanticastindexer::config::{
    ast_preferred_for_exts, build_mcp_plan, build_plan, default_cap, is_bare_default_config_name, load_config,
    patterns_indexable, resolve_default_config, Config, ConfigError, ConfigSource, LoggingConfig, Plan, CAP_E5,
    CAP_LARGE, DEFAULT_COLLECTION, DEFAULT_DUCKDB_PATH, DEFAULT_DUPLICATE_MIN_CLUSTER_SIZE,
    DEFAULT_DUPLICATE_MIN_SCORE, DEFAULT_FIND_SIMILAR_MIN_SCORE, DEFAULT_MODEL, DEFAULT_OLLAMA_URL, DEFAULT_ORT_MODEL,
    DEFAULT_ORT_MODEL_REPO, DEFAULT_ORT_VECTOR_DIM, DEFAULT_TOP_K, DEFAULT_VECTOR_DIM, NO_CONFIG_NOTE,
};
use semanticastindexer::domain::PrefixStyle;
use semanticastindexer::globs::{is_indexable, nesting_of};
use semanticastindexer::init::interview::Answers;
use semanticastindexer::init::template;
use semanticastindexer::logging::{build_filter, normalize_level, resolve_format, resolve_timing};
use semanticastindexer::score::Score;
use semanticastindexer::vectordbs::compile_path_glob;

fn args() -> Args {
    Args {
        command: None,
        root: "src".to_string(),
        ext: Vec::new(),
        backend: None,
        embedder: None,
        chunker: None,
        config: None,
        collection: None,
        model: None,
        query: None,
        query_only: false,
        recreate: false,
        dry_run: false,
        limit: 5,
        silent: false,
        verbose: 0,
        log_format: None,
        timing: false,
    }
}

fn text(v: &serde_yaml_ng::Value, key: &str) -> Option<String> {
    v.get(key).and_then(|x| x.as_str()).map(|s| s.to_string())
}

fn list(v: &serde_yaml_ng::Value, key: &str) -> Vec<String> {
    match v.get(key).and_then(|x| x.as_sequence()) {
        Some(items) => items.iter().filter_map(|x| x.as_str()).map(|s| s.to_string()).collect(),
        None => Vec::new(),
    }
}

fn config_of(yaml: &str) -> Config {
    let v: serde_yaml_ng::Value = serde_yaml_ng::from_str(yaml).unwrap();
    let mut c = Config::default();
    c.backend = text(&v, "backend");
    c.embedder = text(&v, "embedder");
    c.chunker = text(&v, "chunker");
    c.prefix_style = text(&v, "prefix_style");
    c.collection = text(&v, "collection");
    c.model = text(&v, "model");
    c.vector_dim = v.get("vector_dim").and_then(|x| x.as_u64());
    c.exclude_dirs = list(&v, "exclude_dirs");
    c.exclude = list(&v, "exclude");
    if let Some(d) = v.get("duckdb") {
        c.duckdb.path = text(d, "path");
    }
    if let Some(o) = v.get("ollama") {
        c.ollama.url = text(o, "url");
        c.ollama.model = text(o, "model");
    }
    if let Some(q) = v.get("qdrant") {
        c.qdrant.url = text(q, "url");
    }
    c
}

fn plan_from_yaml(yaml: &str) -> Result<Plan, ConfigError> {
    build_plan(&args(), &config_of(yaml), false)
}

fn plan_of(yaml: &str) -> Plan {
    match plan_from_yaml(yaml) {
        Ok(p) => p,
        Err(e) => panic!("{}", e.message()),
    }
}

fn minimal_plan() -> Plan {
    Plan {
        root: "src".to_string(),
        ext: vec!["ts".to_string()],
        backend: "mock".to_string(),
        qdrant_url: None,
        embedder: "ort".to_string(),
        chunker: "lines".to_string(),
        max_chunk_chars: CAP_LARGE,
        prefix_style: PrefixStyle::Bare,
        collection: DEFAULT_COLLECTION.to_string(),
        model: DEFAULT_ORT_MODEL.to_string(),
        vector_dim: DEFAULT_ORT_VECTOR_DIM,
        duckdb_path: DEFAULT_DUCKDB_PATH.to_string(),
        duckdb_model_cache: None,
        model_repo: DEFAULT_ORT_MODEL_REPO.to_string(),
        ollama_url: DEFAULT_OLLAMA_URL.to_string(),
        ollama_model: None,
        exclude_dirs: Vec::new(),
        include_globs: GlobSetBuilder::new().build().unwrap(),
        include_active: false,
        exclude: GlobSetBuilder::new().build().unwrap(),
        skip_generated: true,
        strip_comments: true,
        honor_noindex_marker: true,
        honor_noduplicate_marker: true,
        limit: 5,
        find_similar_min_score: Score::from_bits(DEFAULT_FIND_SIMILAR_MIN_SCORE),
        duplicate_min_score: Score::from_bits(DEFAULT_DUPLICATE_MIN_SCORE),
        duplicate_min_cluster_size: DEFAULT_DUPLICATE_MIN_CLUSTER_SIZE,
        top_k: DEFAULT_TOP_K,
    }
}

fn found(names: &[&str]) -> Option<String> {
    let files: Vec<String> = names.iter().map(|n| n.to_string()).collect();
    resolve_default_config("proj", &files)
}

#[test]
fn default_config_resolution_order() {
    assert_eq!(found(&[]), None, "empty dir");
    assert_eq!(
        found(&["indexer.yaml"]).unwrap(),
        "proj/indexer.yaml",
        "legacy name is honored when alone"
    );
    assert_eq!(
        found(&["indexer.yaml", "sai-cfg.yaml"]).unwrap(),
        "proj/sai-cfg.yaml",
        ".yaml spelling beats the legacy name"
    );
    assert_eq!(
        found(&["indexer.yaml", "sai-cfg.yaml", "sai-cfg.yml"]).unwrap(),
        "proj/sai-cfg.yml",
        "the standard sai-cfg.yml wins over everything"
    );
}

#[test]
fn without_a_config_file_there_is_no_default() {
    assert_eq!(found(&[]), None);
    assert_eq!(found(&["other.yml"]), None);
}

#[test]
fn bare_default_config_name_recognition() {
    assert!(is_bare_default_config_name("sai-cfg.yml"));
    assert!(is_bare_default_config_name("sai-cfg.yaml"));
    assert!(!is_bare_default_config_name("indexer.yaml"));
    assert!(!is_bare_default_config_name("configs/sai-cfg.yml"));
    assert!(!is_bare_default_config_name("other.yml"));
}

#[test]
fn qdrant_backend_defaults_to_qdrant_embedder() {
    let plan = plan_of("backend: qdrant\n");
    assert_eq!(plan.embedder, "qdrant");
    assert!(
        !plan.can_embed_locally(),
        "the qdrant (server-side) embedder must keep the Document path"
    );
    assert_eq!(plan.model, DEFAULT_MODEL);
    assert_eq!(plan.vector_dim, DEFAULT_VECTOR_DIM);
}

#[test]
fn qdrant_with_ort_embedder_enables_local_embed() {
    let plan = plan_of("backend: qdrant\nembedder: ort\n");
    assert_eq!(plan.embedder, "ort");
    assert!(plan.can_embed_locally());
    assert_eq!(plan.model, DEFAULT_ORT_MODEL);
    assert_eq!(plan.vector_dim, DEFAULT_ORT_VECTOR_DIM);
}

#[test]
fn qdrant_with_ollama_embedder_enables_local_embed() {
    let plan = plan_of("backend: qdrant\nembedder: ollama\n");
    assert_eq!(plan.embedder, "ollama");
    assert!(plan.can_embed_locally());
}

#[test]
fn config_embedder_does_not_leak_across_backend_override() {
    let mut args = args();
    args.backend = Some("qdrant".to_string());
    let config = config_of("backend: duckdb\nembedder: ort\n");
    let plan = build_plan(&args, &config, false).ok().unwrap();
    assert_eq!(plan.backend, "qdrant");
    assert_eq!(
        plan.embedder, "qdrant",
        "the duckdb config's `ort` must not leak into a --backend qdrant run"
    );
    assert!(
        !plan.can_embed_locally(),
        "server-side qdrant — flush/index need no local embedder"
    );
}

#[test]
fn config_embedder_applies_when_backend_matches() {
    let plan = plan_of("backend: qdrant\nembedder: ort\n");
    assert_eq!(plan.embedder, "ort");
    assert!(plan.can_embed_locally(), "qdrant + ort = local-embed, as written");
}

#[test]
fn qdrant_embedder_with_duckdb_backend_errors() {
    let err = match plan_from_yaml("backend: duckdb\nembedder: qdrant\n") {
        Ok(_) => panic!("expected a validation error for embedder qdrant + backend duckdb"),
        Err(e) => e.message(),
    };
    assert!(
        err.contains("embedder 'qdrant' (server-side inference) is only valid with backend: qdrant"),
        "got: {err}"
    );
}

#[test]
fn duckdb_backend_defaults_to_ort_embedder() {
    let plan = plan_of("backend: duckdb\n");
    assert_eq!(plan.embedder, "ort");
    assert!(plan.can_embed_locally());
    assert_eq!(plan.model, DEFAULT_ORT_MODEL);
    assert_eq!(plan.vector_dim, DEFAULT_ORT_VECTOR_DIM);
}

#[test]
fn can_embed_locally_by_embedder() {
    let mut plan = minimal_plan();

    plan.embedder = "ort".to_string();
    assert!(plan.can_embed_locally(), "ort embeds locally");

    plan.embedder = "ollama".to_string();
    assert!(plan.can_embed_locally(), "ollama embeds locally");

    plan.embedder = "qdrant".to_string();
    assert!(!plan.can_embed_locally(), "the qdrant embedder is server-side inference");
}

#[test]
fn similarity_defaults_resolve() {
    let plan = minimal_plan();
    assert_eq!(f32::from_bits(plan.find_similar_min_score().bits), 0.85);
    assert_eq!(f32::from_bits(plan.duplicate_min_score().bits), 0.93);
    assert_eq!(plan.duplicate_min_cluster_size(), 2);
    assert_eq!(plan.top_k(), 10);
}

#[test]
fn build_plan_flag_overrides_config() {
    let config = config_of("collection: from_config\nbackend: duckdb\n");
    let plan = build_plan(&args(), &config, false).ok().unwrap();
    assert_eq!(plan.collection, "from_config");
    assert_eq!(plan.backend, "duckdb");

    let mut args = args();
    args.collection = Some("from_flag".to_string());
    args.backend = Some("qdrant".to_string());
    let plan = build_plan(&args, &config, false).ok().unwrap();
    assert_eq!(plan.collection, "from_flag");
    assert_eq!(plan.backend, "qdrant");
}

#[test]
fn build_plan_errors_on_missing_explicit_config() {
    let mut args = args();
    args.config = Some("/nonexistent/indexer.yaml".to_string());
    let res = load_config(&args, false, None);
    assert!(res.is_err(), "explicit missing config must error");
}

#[test]
fn explicit_missing_config_is_still_an_error() {
    let mut args = args();
    args.config = Some("/nonexistent/sai-cfg.yml".to_string());
    match load_config(&args, false, Some("sai-cfg.yml".to_string())) {
        Ok(_) => panic!("must not fall back"),
        Err(e) => assert!(e.message().contains("config file not found"), "got: {}", e.message()),
    }
}

#[test]
fn default_seek_prefers_sai_cfg_and_still_reads_legacy() {
    // The file that was found is the one that is read; a bad exclude glob in it fails the run.
    let both = found(&["sai-cfg.yml", "indexer.yaml"]);
    match load_config(&args(), false, both) {
        Ok(ConfigSource::File(f)) => assert_eq!(f, "proj/sai-cfg.yml"),
        _ => panic!("sai-cfg.yml must win over legacy"),
    }
    let legacy = found(&["indexer.yaml"]);
    match load_config(&args(), false, legacy) {
        Ok(ConfigSource::File(f)) => assert_eq!(f, "proj/indexer.yaml"),
        _ => panic!("legacy config must still be loaded"),
    }
    let err = match plan_from_yaml("exclude:\n  - \"[\"\n") {
        Ok(_) => panic!("legacy config must still be loaded"),
        Err(e) => e.message(),
    };
    assert!(err.contains("bad exclude glob"), "got: {err}");
    assert_eq!(plan_of("collection: fine\n").collection, "fine");
}

#[test]
fn default_seek_falls_back_to_builtin_defaults() {
    match load_config(&args(), false, found(&[])) {
        Ok(ConfigSource::Builtin) => {}
        _ => panic!("built-in defaults"),
    }
    assert!(
        NO_CONFIG_NOTE.contains("no config at sai-cfg.yml"),
        "the note names the standard file: {NO_CONFIG_NOTE}"
    );
}

#[test]
fn generated_config_drives_build_plan() {
    let answers = Answers {
        backend: "duckdb".to_string(),
        embedder: "ollama".to_string(),
        collection: "acme_code".to_string(),
        model: "nomic-embed-text".to_string(),
        vector_dim: 768,
        ollama_url: "http://gpu:11434".to_string(),
        extra_exclude_dirs: vec!["vendor".to_string()],
        ..Answers::default()
    };
    let plan = plan_of(&template::render(&answers));
    assert_eq!(plan.backend, "duckdb");
    assert_eq!(plan.embedder, "ollama");
    assert_eq!(plan.collection, "acme_code");
    assert_eq!(plan.model, "nomic-embed-text");
    assert_eq!(plan.vector_dim, 768);
    assert_eq!(plan.ollama_url, "http://gpu:11434");
    assert_eq!(plan.ollama_model.as_deref(), Some("nomic-embed-text"));
    assert!(plan.exclude_dirs.contains(&"vendor".to_string()));
    assert!(plan.exclude_dirs.contains(&"node_modules".to_string()));
    assert!(
        plan.passes_globs("src/ok.ts") && !plan.passes_globs("src/ok.test.ts"),
        "standard exclude globs are active"
    );
}

#[test]
fn absent_bare_name_falls_back() {
    let mut args = args();
    args.config = Some("sai-cfg.yml".to_string());
    assert!(matches!(load_config(&args, false, None), Ok(ConfigSource::Builtin)));
    match load_config(&args, true, None) {
        Ok(ConfigSource::File(f)) => assert_eq!(f, "sai-cfg.yml"),
        _ => panic!("an existing file is read"),
    }
}

#[test]
fn unset_backend_differs_for_the_server() {
    let config = Config::default();
    let plan = build_plan(&args(), &config, false).ok().unwrap();
    assert_eq!(plan.backend, "qdrant");
    assert_eq!(plan.embedder, "qdrant");
    let plan = build_mcp_plan(&args(), &config, false).ok().unwrap();
    assert_eq!(plan.backend, "duckdb");
    assert_eq!(plan.embedder, "ort");
}

#[test]
fn a_config_backend_wins_over_the_server_default() {
    let config = config_of("backend: qdrant\n");
    let plan = build_mcp_plan(&args(), &config, false).ok().unwrap();
    assert_eq!(plan.backend, "qdrant");
}

#[test]
fn allow_list_and_exclude_globs() {
    let mut config = Config::default();
    config.include_globs = vec!["src/**".to_string()];
    config.exclude = vec!["**/*.gen.ts".to_string()];
    let plan = build_plan(&args(), &config, false).ok().unwrap();
    assert!(plan.include_active);
    assert!(plan.passes_globs("src/a/b.ts"));
    assert!(!plan.passes_globs("lib/a.ts"), "not on the allow-list");
    assert!(!plan.passes_globs("src/a.gen.ts"), "exclude wins over the allow-list");
}

#[test]
fn bad_patterns_are_named() {
    let mut config = Config::default();
    config.include_globs = vec!["ok/**".to_string(), "{a".to_string()];
    match build_plan(&args(), &config, false) {
        Ok(_) => panic!("must fail"),
        Err(e) => {
            assert_eq!(e.message(), "bad include glob: {a");
            assert_eq!(e.cause(), Some(&globset::Glob::new("{a").unwrap_err().to_string()));
        }
    }
    assert!(patterns_indexable(&config));
}

/// Groups that nest deeper than the parser can recurse are refused; groups side by side are not.
#[test]
fn deeply_nested_patterns_are_not_indexable() {
    let nested = |n: usize| format!("{}a{}", "{".repeat(n), "}".repeat(n));
    assert_eq!(nesting_of(&nested(3)), 3);
    assert_eq!(nesting_of("{a,b}/{c,d}"), 1);
    assert_eq!(nesting_of("{a,{b,{c}}}/{d}"), 3);
    assert_eq!(nesting_of("plain/**"), 0);
    assert_eq!(nesting_of("{{{{"), 0, "nothing is closed");
    assert_eq!(nesting_of(&"\\{a\\}".repeat(2000)), 1, "escaped braces nest nowhere");
    assert_eq!(nesting_of(&"[{]a[}]".repeat(2000)), 0, "braces in classes are plain characters");
    assert_eq!(nesting_of("[]}]{a}"), 1, "a bracket that comes first stands for itself");
    assert_eq!(nesting_of("{[!]}]{a}}"), 2);
    assert_eq!(nesting_of("[a]\\x{b,{c}}"), 2, "what follows a class or an escape counts");
    assert!(is_indexable(&vec!["[a]{b,c}".repeat(2000)]), "groups side by side do not nest");
    assert!(is_indexable(&vec![nested(1000)]));
    assert!(!is_indexable(&vec![nested(1001)]));
    assert!(!is_indexable(&vec![nested(100_000)]));
    let mut config = Config::default();
    config.exclude = vec![nested(1001)];
    assert!(!patterns_indexable(&config));
}

/// Nested empty groups match nothing and are taken; a regular expression may not nest as deep.
#[test]
fn nested_groups_compile_as_far_as_they_can() {
    let empty = format!("{}{}", "{".repeat(300), "}".repeat(300));
    assert!(matches!(compile_path_glob(Some(&empty)), Ok(Some(_))));
    let shallow = format!("{}a{}", "{".repeat(200), "}".repeat(200));
    assert!(matches!(compile_path_glob(Some(&shallow)), Ok(Some(_))));
    let deep = format!("{}a{}", "{".repeat(1000), "}".repeat(1000));
    assert!(compile_path_glob(Some(&deep)).is_err());
    let mut config = Config::default();
    config.exclude = vec![deep];
    match build_plan(&args(), &config, false) {
        Ok(_) => panic!("must fail"),
        Err(e) => {
            assert_eq!(e.message(), "failed to compile exclude globs");
            assert!(e.cause().is_some_and(|reason| !reason.is_empty()));
        }
    }
}

/// The tables list patterns per state, so size and number bound each other.
#[test]
fn many_long_patterns_are_not_indexable() {
    let long = "a".repeat(1_000_000);
    assert!(is_indexable(&vec![long.clone()]));
    let mut many = vec!["a*".to_string(); 600];
    many.push(long);
    assert!(!is_indexable(&many));
}

#[test]
fn files_are_wanted_by_extension_globs_and_marker() {
    let mut a = args();
    a.ext = vec!["ts".to_string()];
    let mut config = config_of("exclude:\n  - \"**/*.test.ts\"\n");
    config.skip_generated_marker = true;
    let plan = match build_plan(&a, &config, false) {
        Ok(p) => p,
        Err(e) => panic!("{}", e.message()),
    };
    assert!(is_wanted(&plan, Some("ts"), "src/keep.ts", false));
    assert!(!is_wanted(&plan, Some("ts"), "src/keep.test.ts", false), "excluded glob");
    assert!(!is_wanted(&plan, Some("ts"), "src/gen.ts", true), "generated marker");
    assert!(!is_wanted(&plan, Some("rs"), "src/main.rs", false));
    assert!(!is_wanted(&plan, None, "Makefile", false));
}

/// A config of Qdrant answers embeds on the server, whatever embedder the answers hold.
#[test]
fn rendered_qdrant_answers_embed_on_the_server() {
    for embedder in ["ort", "ollama"] {
        let answers = Answers {
            backend: "qdrant".to_string(),
            embedder: embedder.to_string(),
            model: DEFAULT_MODEL.to_string(),
            vector_dim: 384,
            ..Answers::default()
        };
        let yaml = template::render(&answers);
        assert!(!yaml.contains("embedder:"), "no embedder is stated:\n{yaml}");
        let plan = plan_of(&yaml);
        assert_eq!((plan.backend.as_str(), plan.embedder.as_str()), ("qdrant", "qdrant"));
        assert_eq!((plan.model.as_str(), plan.vector_dim), (DEFAULT_MODEL, 384));
    }
}

/// The local embedder loads the model that was answered.
#[test]
fn rendered_local_answers_name_the_repository() {
    let answers = |model: &str| Answers { model: model.to_string(), ..Answers::default() };
    assert!(template::render(&answers(DEFAULT_MODEL)).contains("  model_repo: Xenova/multilingual-e5-small\n"));
    assert!(template::render(&answers("acme/code")).contains("  model_repo: acme/code\n"));
    assert!(template::render(&Answers::default()).contains(&format!("  model_repo: {DEFAULT_ORT_MODEL_REPO}\n")));
}

/// Where a backend is named, the server resolves as the command line does.
#[test]
fn server_and_command_line_agree_on_a_named_backend() {
    for yaml in ["backend: duckdb\n", "backend: qdrant\nembedder: ort\n"] {
        let config = config_of(yaml);
        let (a, b) = match (build_plan(&args(), &config, false), build_mcp_plan(&args(), &config, false)) {
            (Ok(a), Ok(b)) => (a, b),
            _ => panic!("both resolve"),
        };
        assert_eq!((a.backend, a.embedder, a.model), (b.backend, b.embedder, b.model));
        assert_eq!((a.vector_dim, a.max_chunk_chars), (b.vector_dim, b.max_chunk_chars));
    }
    let config = config_of("backend: duckdb\nembedder: qdrant\n");
    match (build_plan(&args(), &config, false), build_mcp_plan(&args(), &config, false)) {
        (Err(a), Err(b)) => assert_eq!(a.message(), b.message()),
        _ => panic!("neither resolves"),
    }
}

#[test]
fn unknown_prefix_style_is_refused() {
    match plan_from_yaml("prefix_style: nonsense\n") {
        Err(ConfigError::PrefixStyle(e)) => assert!(e.message().contains("nonsense")),
        _ => panic!("must fail"),
    }
}

#[test]
fn caps_follow_the_model() {
    assert_eq!(default_cap("duckdb", "ort", "intfloat/multilingual-e5-small"), CAP_E5);
    assert_eq!(default_cap("duckdb", "ort", "jinaai/jina-embeddings-v2-base-code"), CAP_LARGE);
}

#[test]
fn ast_only_for_its_languages() {
    assert!(ast_preferred_for_exts(&vec!["ts".to_string()]));
    assert!(!ast_preferred_for_exts(&vec!["md".to_string()]));
}

#[test]
fn normalize_level_validates_and_defaults() {
    assert_eq!(normalize_level(None), "info");
    assert_eq!(normalize_level(Some("info")), "info");
    assert_eq!(normalize_level(Some("  DEBUG ")), "debug");
    assert_eq!(normalize_level(Some("warn")), "warn");
    assert_eq!(normalize_level(Some("nonsense")), "info");
}

fn logging(level: Option<&str>, format: Option<&str>, timing: Option<bool>) -> LoggingConfig {
    LoggingConfig {
        level: level.map(|s| s.to_string()),
        format: format.map(|s| s.to_string()),
        timing,
    }
}

#[test]
fn resolve_format_flag_beats_config_beats_default() {
    let json_cfg = logging(None, Some("json"), None);
    assert_eq!(resolve_format(&args(), &json_cfg), LogFormat::Json);
    let mut flagged = args();
    flagged.log_format = Some(LogFormat::Pretty);
    assert_eq!(resolve_format(&flagged, &json_cfg), LogFormat::Pretty);
    assert_eq!(resolve_format(&args(), &logging(None, None, None)), LogFormat::Pretty);
}

#[test]
fn resolve_timing_flag_config_and_silent() {
    let on = logging(None, None, Some(true));
    let off = logging(None, None, None);
    assert!(!resolve_timing(&args(), &off));
    assert!(resolve_timing(&args(), &on));
    let mut timed = args();
    timed.timing = true;
    assert!(resolve_timing(&timed, &off));
    timed.silent = true;
    assert!(!resolve_timing(&timed, &on));
}

#[test]
fn filter_follows_flags_then_config() {
    let debug = logging(Some("debug"), None, None);
    let plain = build_filter(&args(), &debug, "semanticastindexer");
    assert!(plain.contains("debug"), "{plain}");
    let mut silent = args();
    silent.silent = true;
    silent.verbose = 2;
    let quiet = build_filter(&silent, &debug, "semanticastindexer");
    assert!(quiet.contains("error"), "{quiet}");
}
