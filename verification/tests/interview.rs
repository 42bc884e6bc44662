//! The interview, over scripted input.

use semanticastindexer::cli::InitArgs;
use semanticastindexer::config::{DEFAULT_MODEL, DEFAULT_OLLAMA_MODEL};
use semanticastindexer::init::interview::{interview, known_model_dim, Answers, Console, Stop};
use semanticastindexer::init::template;
use semanticastindexer::init::{write_config, written_notice};

fn run(script: &str) -> (Result<Answers, Stop>, String) {
    let lines: Vec<String> = script.lines().map(|l| l.to_string()).collect();
    let mut console = Console::new(lines, true);
    let res = interview(&mut console);
    (res, console.out)
}

#[test]
fn eof_everywhere_yields_pure_defaults() {
    let (res, _) = run("");
    assert_eq!(res.unwrap(), Answers::default());
}

#[test]
fn blank_answers_yield_pure_defaults() {
    let (res, _) = run("\n\n\n\n\n\n");
    assert_eq!(res.unwrap(), Answers::default());
}

#[test]
fn qdrant_flow_asks_url_and_skips_embedder() {
    let (res, prompts) = run("qdrant\nmy_code\n\nhttps://c1.eu.cloud:6334\nvendor, examples\n");
    let a = res.unwrap();
    assert_eq!(a.backend, "qdrant");
    assert_eq!(a.collection, "my_code");
    assert_eq!(a.model, DEFAULT_MODEL);
    assert_eq!(a.vector_dim, 384, "e5-small dim auto-detected");
    assert_eq!(a.qdrant_url.as_deref(), Some("https://c1.eu.cloud:6334"));
    assert_eq!(a.extra_exclude_dirs, vec!["vendor", "examples"]);
    assert!(
        !prompts.contains("Embedder —"),
        "qdrant embeds server-side: no embedder question"
    );
    assert!(prompts.contains("Qdrant cluster gRPC URL"));
}

#[test]
fn ollama_flow_with_known_model_auto_dim() {
    let (res, prompts) = run("duckdb\nollama\n\nnomic-embed-text\n\nhttp://gpu:11434\n\n");
    let a = res.unwrap();
    assert_eq!(a.embedder, "ollama");
    assert_eq!(a.model, "nomic-embed-text");
    assert_eq!(a.vector_dim, 768, "nomic-embed-text dim auto-detected");
    assert_eq!(a.ollama_url, "http://gpu:11434");
    assert!(prompts.contains(&format!("[{DEFAULT_OLLAMA_MODEL}]")));
}

#[test]
fn invalid_choice_reprompts() {
    let (res, prompts) = run("postgres\nqdrant\n\n\n\n\n");
    assert_eq!(res.unwrap().backend, "qdrant");
    assert!(prompts.contains("please answer one of: duckdb, qdrant"));
}

#[test]
fn choice_is_case_insensitive() {
    let (res, _) = run("QDRANT\n\n\n\n\n");
    assert_eq!(res.unwrap().backend, "qdrant");
}

#[test]
fn unknown_model_asks_dim_and_validates() {
    let (res, prompts) = run("duckdb\nort\n\nacme/strange-model\nabc\n0\n1024\n\n\n");
    let a = res.unwrap();
    assert_eq!(a.model, "acme/strange-model");
    assert_eq!(a.vector_dim, 1024);
    assert!(prompts.contains("Vector dimensionality of 'acme/strange-model'"));
    assert!(prompts.contains("please enter a positive integer"));
}

#[test]
fn unknown_model_eof_on_dim_errors() {
    let (res, _) = run("duckdb\nort\n\nacme/strange-model\n");
    let err = res.unwrap_err().message();
    assert!(err.contains("vector_dim is required"), "got: {err}");
    assert!(err.contains("acme/strange-model"), "got: {err}");
}

#[test]
fn exclude_dirs_list_is_trimmed_and_filtered() {
    let (res, _) = run("\n\n\n\n\n vendor ,, examples ,\n");
    assert_eq!(res.unwrap().extra_exclude_dirs, vec!["vendor", "examples"]);
}

#[test]
fn known_model_dims() {
    assert_eq!(known_model_dim("jinaai/jina-embeddings-v2-base-code"), Some(768));
    assert_eq!(known_model_dim("intfloat/multilingual-e5-small"), Some(384));
    assert_eq!(known_model_dim("Xenova/multilingual-e5-small"), Some(384));
    assert_eq!(known_model_dim("intfloat/multilingual-e5-base"), Some(768));
    assert_eq!(known_model_dim("intfloat/multilingual-e5-large"), Some(1024));
    assert_eq!(known_model_dim("mxbai-embed-large"), Some(1024));
    assert_eq!(known_model_dim("nomic-embed-text"), Some(768));
    assert_eq!(known_model_dim("acme/strange-model"), None);
}

/// With the input still open, the interview stops where it lacks a line, and goes on from there once
/// the line has come.
#[test]
fn open_input_waits_and_goes_on() {
    let answers = ["qdrant", "my_code", "", "", "vendor"];
    let mut lines: Vec<String> = Vec::new();
    let mut shown = 0;
    for answer in answers {
        let mut console = Console::new(lines.clone(), false);
        assert!(matches!(interview(&mut console), Err(Stop::Waiting)));
        assert!(console.out.len() > shown, "a question is shown");
        shown = console.out.len();
        lines.push(answer.to_string());
    }
    let mut console = Console::new(lines, false);
    let a = interview(&mut console).unwrap();
    assert_eq!(a.collection, "my_code");
    assert_eq!(a.extra_exclude_dirs, vec!["vendor"]);
}

#[test]
fn rendered_config_states_the_answers() {
    let (res, _) = run("qdrant\nmy_code\n\nhttps://c1.eu.cloud:6334\nvendor\n");
    let yaml = template::render(&res.unwrap());
    assert!(yaml.contains("backend: qdrant"), "answer applied:\n{yaml}");
    assert!(yaml.contains("collection: my_code"));
    assert!(yaml.contains("model: intfloat/multilingual-e5-small"));
    assert!(yaml.contains("vector_dim: 384"), "dim auto-derived for e5-small");
    assert!(yaml.contains("  url: https://c1.eu.cloud:6334"));
    assert!(yaml.contains("  - vendor"));
}

#[test]
fn init_with_closed_stdin_accepts_defaults() {
    let (res, _) = run("");
    let yaml = template::render(&res.unwrap());
    assert!(yaml.contains("backend: duckdb"));
    assert!(yaml.contains("model: jinaai/jina-embeddings-v2-base-code"));
}

#[test]
fn write_config_refuses_then_forces_overwrite() {
    assert!(write_config("sai-cfg.yml", false, false).is_ok());
    let err = write_config("sai-cfg.yml", true, false).unwrap_err().message();
    assert!(err.contains("already exists"), "got: {err}");
    assert!(err.contains("--force"), "the fix is named: {err}");
    assert!(write_config("sai-cfg.yml", true, true).is_ok());
}

#[test]
fn notice_names_the_file() {
    let args = InitArgs { yes: true, force: false, output: "configs/deep/sai-cfg.yml".to_string() };
    let notice = written_notice(&args);
    assert_eq!(
        notice,
        "wrote configs/deep/sai-cfg.yml\nnext: semanticastindexer --dry-run   # preview what would be indexed\n"
    );
}
