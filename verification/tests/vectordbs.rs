//! What the backends send, and how they read what comes back.

use semanticastindexer::domain::{CodeChunk, Hit};
use semanticastindexer::score::Score;
use semanticastindexer::vectordbs::duckdb::{
    dedup_truncate, fetch_count, hit_of_row, keep_admitted, load_vss, start_upsert, upsert_texts, DuckDbBackend,
    StoredRow, UpsertAction, UpsertFault, UpsertRun, UpsertStep,
};
use semanticastindexer::vectordbs::embedder::{
    embed_batches, flatten_tokens, hidden_dims, pool_row, scatter, token_batch, OllamaEmbedder, TensorFault, TokenBatch,
};
use semanticastindexer::vectordbs::qdrant::{
    api_key, batch_end, check_vectors, client_url, ensure_ready, extract_vector, hit_of_payload, passage_document,
    payload_flag, payload_for, payload_int, payload_str, payload_str_opt, point_id_u64, query_document, upsert_failure,
    validate_existing_collection_dim, PayloadValue, PointError, ReadyAction, Scroll, ScrollStep, StoredVector,
    VectorFault,
};
use semanticastindexer::vectordbs::{
    check_dim, compile_path_glob, dim_mismatch_duckdb_path, finalize_passage, format_passage, format_query, passes,
    OpenError, PassageError, PrefixStyle,
};

fn score(x: f32) -> Score {
    Score::from_bits(x.to_bits())
}

fn chunk_with_symbol() -> CodeChunk {
    CodeChunk {
        id: 42,
        path: "src/foo.rs".to_string(),
        language: "rs".to_string(),
        start_line: 10,
        end_line: 20,
        text: "fn foo() {}".to_string(),
        symbol: Some("foo".to_string()),
        commit_sha: Some("abc123".to_string()),
        dirty: true,
        no_duplicate: true,
    }
}

fn chunk_no_symbol() -> CodeChunk {
    CodeChunk { symbol: None, ..chunk_with_symbol() }
}

fn hit(id: u64, path: &str) -> Hit {
    Hit {
        id,
        path: path.to_string(),
        language: "ts".to_string(),
        start_line: 1,
        end_line: 2,
        text: String::new(),
        score: score(1.0),
        symbol: None,
        commit_sha: None,
        dirty: false,
        no_duplicate: false,
    }
}

fn duckdb(vector_dim: u64) -> DuckDbBackend {
    DuckDbBackend {
        collection: "test_validation".to_string(),
        vector_dim,
        path: "mismatch.duckdb".to_string(),
    }
}

#[test]
fn e5_passage_and_query_prefixes_apply() {
    assert_eq!(format_passage(PrefixStyle::E5, "foo"), "passage: foo");
    assert_eq!(format_query(PrefixStyle::E5, "foo"), "query: foo");
}

#[test]
fn qwen_passage_bare_query_instructed() {
    assert_eq!(format_passage(PrefixStyle::Qwen, "foo"), "foo");
    let q = format_query(PrefixStyle::Qwen, "find the parser");
    assert!(q.starts_with("Instruct: Given a code search query"));
    assert!(q.ends_with("\nQuery: find the parser"));
}

#[test]
fn none_style_is_bare_both_sides() {
    assert_eq!(format_passage(PrefixStyle::Bare, "foo"), "foo");
    assert_eq!(format_query(PrefixStyle::Bare, "foo"), "foo");
}

#[test]
fn prefix_styles_parse_and_detect() {
    assert_eq!(PrefixStyle::parse("E5").unwrap(), PrefixStyle::E5);
    assert_eq!(PrefixStyle::parse("none").unwrap(), PrefixStyle::Bare);
    assert!(PrefixStyle::parse("nonsense").unwrap_err().message().contains("nonsense"));
    assert_eq!(PrefixStyle::detect("intfloat/multilingual-e5-small"), PrefixStyle::E5);
    assert_eq!(PrefixStyle::detect("Qwen/Qwen3-Embedding-0.6B"), PrefixStyle::Qwen);
    assert_eq!(PrefixStyle::detect("jinaai/jina-embeddings-v2-base-code"), PrefixStyle::Bare);
}

#[test]
fn ollama_requires_model() {
    let result = OllamaEmbedder::new("http://localhost:11434", None, PrefixStyle::E5);
    match result {
        Ok(_) => panic!("missing model must error"),
        Err(e) => assert!(e.contains("ollama.model")),
    }
}

#[test]
fn ollama_requests_are_prefixed() {
    let e = match OllamaEmbedder::new("http://localhost:11434/", Some("nomic-embed-text"), PrefixStyle::E5) {
        Ok(e) => e,
        Err(m) => panic!("{m}"),
    };
    assert_eq!(e.endpoint(), "http://localhost:11434/api/embed");
    assert_eq!(e.passage_inputs(&vec!["a".to_string(), "b".to_string()]), vec!["passage: a", "passage: b"]);
    assert_eq!(e.query_input("a"), "query: a");
}

#[test]
fn payload_for_is_byte_identical_across_calls() {
    let c = chunk_with_symbol();
    let a = payload_for(&c);
    let b = payload_for(&c);
    assert_eq!(a, b, "shared payload_for must produce identical payloads");
}

#[test]
fn payload_for_includes_symbol_only_when_present() {
    let map = payload_for(&chunk_with_symbol());
    assert_eq!(payload_str(&map, "path"), "src/foo.rs");
    assert_eq!(payload_str(&map, "language"), "rs");
    assert_eq!(payload_int(&map, "start_line"), 10);
    assert_eq!(payload_int(&map, "end_line"), 20);
    assert_eq!(payload_str(&map, "text"), "fn foo() {}");
    assert_eq!(payload_str(&map, "commit"), "abc123");
    let get = |key: &str| map.fields.iter().find(|f| f.0 == key).map(|f| &f.1);
    assert_eq!(get("dirty"), Some(&PayloadValue::Flag(true)), "dirty stored as a bool");
    assert_eq!(get("no_duplicate"), Some(&PayloadValue::Flag(true)));
    assert_eq!(payload_str_opt(&map, "symbol"), Some("foo".to_string()));

    let without = payload_for(&chunk_no_symbol());
    assert!(
        !without.fields.iter().any(|f| f.0 == "symbol"),
        "no symbol key when the chunk has none"
    );
}

#[test]
fn documents_carry_the_prefix_of_their_side() {
    for c in [chunk_with_symbol(), chunk_no_symbol()] {
        assert_eq!(passage_document(PrefixStyle::E5, &c), "passage: fn foo() {}");
    }
    assert_eq!(query_document(PrefixStyle::E5, "foo"), "query: foo");
}

/// A chunk that is stored and read again is the chunk that was stored.
#[test]
fn payloads_read_back() {
    let c = chunk_with_symbol();
    let h = hit_of_payload(&payload_for(&c), c.id, score(0.5));
    assert_eq!(h.id, 42);
    assert_eq!(h.path, c.path);
    assert_eq!(h.language, c.language);
    assert_eq!((h.start_line, h.end_line), (10, 20));
    assert_eq!(h.text, c.text);
    assert_eq!(h.symbol, c.symbol);
    assert_eq!(h.commit_sha, c.commit_sha);
    assert!(h.dirty && h.no_duplicate);
    assert_eq!(h.score, score(0.5));
    assert!(!payload_flag(&payload_for(&c), "absent"));
}

#[test]
fn check_dim_guards_vector_length() {
    assert!(check_dim(768, 768).is_ok(), "matching dim passes");
    let err = match check_dim(384, 768) {
        Ok(()) => panic!("expected a dim-mismatch error"),
        Err(e) => e.message(),
    };
    assert!(err.contains("produced 384-d vectors"), "got: {err}");
    assert!(err.contains("vector_dim=768"), "got: {err}");
}

#[test]
fn the_last_passage_vector_counts() {
    assert_eq!(finalize_passage(vec![vec![1.0], vec![2.0, 3.0]], 2).ok(), Some(vec![2.0, 3.0]));
    let none: Vec<Vec<f32>> = Vec::new();
    match finalize_passage(none, 2) {
        Err(PassageError::Missing) => {}
        _ => panic!("there is none"),
    }
    match finalize_passage(vec![vec![1.0]], 2) {
        Err(e) => assert!(e.message().contains("produced 1-d vectors")),
        Ok(_) => panic!("wrong size"),
    }
}

#[test]
fn duckdb_rejects_mismatched_dim_on_existing_table() {
    let err = match duckdb(768).validate_existing_collection_dim(true, Some("FLOAT[384]")) {
        Err(e) => e,
        Ok(_) => panic!("expected dimension mismatch error but connect succeeded"),
    };
    let msg = err.message.clone();
    assert!(
        msg.contains("FLOAT[384]") && msg.contains("vector_dim=768"),
        "error should clearly mention the actual vs expected dim: {msg}"
    );
    assert!(msg.contains("--recreate") || msg.contains("recreate"), "error should suggest --recreate");
    assert_eq!(
        dim_mismatch_duckdb_path(&OpenError::Mismatch(err)).as_deref(),
        Some("mismatch.duckdb")
    );
    assert_eq!(dim_mismatch_duckdb_path(&OpenError::Other("locked".to_string())), None);
}

#[test]
fn duckdb_accepts_matching_dim_on_existing_table() {
    duckdb(384)
        .validate_existing_collection_dim(true, Some("FLOAT[384]"))
        .expect("matching dim must succeed");
}

#[test]
fn duckdb_validation_skips_when_table_does_not_exist_yet() {
    duckdb(1024)
        .validate_existing_collection_dim(false, None)
        .expect("missing table should not trigger dim validation");
}

#[test]
fn has_no_duplicate_col_absent() {
    assert!(
        !duckdb(4).has_no_duplicate_col(Some(false)),
        "column absent: has_no_duplicate_col must return false"
    );
    assert!(!duckdb(4).has_no_duplicate_col(None), "an unanswered question counts as no");
}

#[test]
fn has_no_duplicate_col_present() {
    let b = duckdb(4);
    let created = b.ensure_ready(false, false);
    assert!(created[0].sql.contains("no_duplicate BOOLEAN DEFAULT false"));
    assert!(
        b.has_no_duplicate_col(Some(true)),
        "column present after ensure_ready: has_no_duplicate_col must return true"
    );
}

fn stored(no_duplicate: Option<bool>) -> StoredRow {
    StoredRow {
        id: 1,
        path: "a.rs".to_string(),
        language: "rust".to_string(),
        start_line: 1,
        end_line: 5,
        text: "fn foo() {}".to_string(),
        symbol: None,
        commit_sha: None,
        dirty: None,
        no_duplicate,
    }
}

#[test]
fn all_chunks_defaults_no_duplicate_false_on_old_table() {
    assert!(!duckdb(4).all_chunks_sql(false).contains("no_duplicate"));
    let h = hit_of_row(stored(None), score(1.0));
    assert!(!h.no_duplicate, "no_duplicate must default to false when column is absent");
}

#[test]
fn all_chunks_reads_no_duplicate_true() {
    assert!(duckdb(4).all_chunks_sql(true).contains("no_duplicate"));
    let h = hit_of_row(stored(Some(true)), score(1.0));
    assert!(h.no_duplicate, "no_duplicate must be true when stored as true");
}

#[test]
fn duckdb_statements() {
    let b = DuckDbBackend { collection: "code".to_string(), vector_dim: 3, path: "x".to_string() };
    assert_eq!(b.count_sql(), "SELECT count(*) FROM code");
    assert_eq!(b.delete_sql(), "DELETE FROM code WHERE path = ?");
    assert_eq!(b.drop_index_sql(), "DROP INDEX IF EXISTS code_hnsw;");
    assert_eq!(
        b.query_by_vector_sql("[1,2,3]", 5, true, false),
        "SELECT id, path, language, start_line, end_line, text, symbol, array_cosine_distance(embedding, [1,2,3]::FLOAT[3]) AS d, commit_sha, dirty FROM code WHERE id != ? ORDER BY d LIMIT 40"
    );
    let again = b.ensure_ready(true, true);
    assert_eq!(again[0].sql, "DROP TABLE IF EXISTS code;");
    assert!(again[1].sql.starts_with("CREATE TABLE IF NOT EXISTS code("));
    assert_eq!(again.len(), 2);
    let kept = b.ensure_ready(false, true);
    assert_eq!(kept.len(), 3);
    assert!(kept.iter().any(|s| !s.required), "older tables are given the columns they lack");
    assert_eq!(b.chunk_count(-1), 0);
    assert_eq!(b.chunk_count(7), 7);
    assert_eq!(fetch_count(5), 40);
    assert_eq!(fetch_count(u64::MAX), u64::MAX);
    assert_eq!(load_vss(0), Some("LOAD vss;"));
    assert_eq!(load_vss(3), None);
}

#[test]
fn duplicate_candidates_are_dropped() {
    let rows = vec![hit(1, "a"), hit(1, "a"), hit(2, "b"), hit(3, "c")];
    let kept = dedup_truncate(rows, 2);
    assert_eq!(kept.iter().map(|h| h.id).collect::<Vec<_>>(), vec![1, 2]);
}

fn two_chunks() -> Vec<CodeChunk> {
    vec![CodeChunk { id: 7, ..chunk_with_symbol() }, CodeChunk { id: 8, ..chunk_no_symbol() }]
}

fn begun(vectors: Vec<Vec<f32>>) -> UpsertRun<f32, String> {
    match start_upsert(two_chunks(), vectors, 3) {
        Ok(Some(run)) => run,
        _ => panic!("there are rows"),
    }
}

/// What a run asks of the database, and how it ends, where the statement at `fails` fails.
fn drive(mut run: UpsertRun<f32, String>, fails: Option<usize>) -> (Vec<String>, Result<(), UpsertFault<String>>) {
    let mut asked = Vec::new();
    loop {
        asked.push(match run.action() {
            UpsertAction::Run(sql) => sql.to_string(),
            UpsertAction::Insert { chunk, vector } => format!("{} {:?}", chunk.id, vector),
        });
        let reply = if Some(asked.len() - 1) == fails { Err("disk full".to_string()) } else { Ok(()) };
        match run.step(reply) {
            UpsertStep::More(next) => run = next,
            UpsertStep::Finished(result) => return (asked, result),
        }
    }
}

/// An upsert is one transaction: begun, each row with its own vector in order, and committed.
#[test]
fn upserts_are_transactions() {
    let vectors = vec![vec![1.0, 2.0, 3.0], vec![4.0, 5.0, 6.0]];
    let (asked, result) = drive(begun(vectors), None);
    assert!(result.is_ok());
    assert_eq!(asked, vec!["BEGIN TRANSACTION;", "7 [1.0, 2.0, 3.0]", "8 [4.0, 5.0, 6.0]", "COMMIT;"]);
}

/// Whatever fails after the beginning, a rollback comes last.
#[test]
fn failed_upserts_are_rolled_back() {
    let vectors = || vec![vec![1.0, 2.0, 3.0], vec![4.0, 5.0, 6.0]];
    let (asked, result) = drive(begun(vectors()), Some(2));
    assert_eq!(asked.last().map(String::as_str), Some("ROLLBACK;"));
    match result {
        Err(UpsertFault::Row { id, error }) => {
            assert_eq!(id, 8);
            assert_eq!(error, "disk full");
        }
        _ => panic!("the row failed"),
    }
    let (asked, result) = drive(begun(vectors()), Some(0));
    assert_eq!(asked, vec!["BEGIN TRANSACTION;"]);
    assert!(matches!(result, Err(UpsertFault::Begin(_))));
    let (asked, result) = drive(begun(vectors()), Some(3));
    assert_eq!(asked.last().map(String::as_str), Some("COMMIT;"));
    assert!(matches!(result, Err(UpsertFault::Commit(_))));
    let (asked, result) = drive(begun(vec![vec![1.0, 2.0, 3.0], vec![4.0]]), None);
    assert_eq!(asked, vec!["BEGIN TRANSACTION;", "7 [1.0, 2.0, 3.0]", "ROLLBACK;"]);
    match result {
        Err(e @ UpsertFault::Dim(_)) => assert!(e.message().contains("produced 1-d vectors")),
        _ => panic!("a vector is short"),
    }
}

#[test]
fn upserts_need_a_vector_for_each_chunk() {
    assert!(matches!(start_upsert::<f32, String>(Vec::new(), Vec::new(), 3), Ok(None)));
    match start_upsert::<f32, String>(two_chunks(), vec![vec![1.0; 3]], 3) {
        Err(e) => assert_eq!(e.message(), "embedder returned 1 vectors for 2 chunks"),
        Ok(_) => panic!("one vector is missing"),
    }
    assert_eq!(upsert_texts(&[]), None);
    assert_eq!(upsert_texts(&two_chunks()), Some(vec!["fn foo() {}".to_string(), "fn foo() {}".to_string()]));
}

#[test]
fn path_globs_filter_rows() {
    let filter = match compile_path_glob(Some("src/**")) {
        Ok(f) => f,
        Err(e) => panic!("{}", e.message()),
    };
    assert!(passes(&filter, "src/a/b.ts"));
    assert!(!passes(&filter, "lib/b.ts"));
    let rows = keep_admitted(vec![(hit(1, "src/a.ts"), 1), (hit(2, "lib/a.ts"), 2)], &filter);
    assert_eq!(rows.iter().map(|r| r.1).collect::<Vec<_>>(), vec![1]);
    match compile_path_glob(Some("[")) {
        Err(e) => assert_eq!(e.message(), "invalid path_glob: ["),
        Ok(_) => panic!("unclosed class"),
    }
    assert!(matches!(compile_path_glob(None), Ok(None)));
}

#[test]
fn vectors_are_read_in_every_shape() {
    assert_eq!(extract_vector(StoredVector::Dense(vec![1.0])).ok(), Some(vec![1.0]));
    assert_eq!(extract_vector(StoredVector::Flat(vec![2.0])).ok(), Some(vec![2.0]));
    let fault = |v: StoredVector<f32>| extract_vector(v).err();
    assert!(matches!(fault(StoredVector::Missing), Some(VectorFault::Missing)));
    assert!(matches!(fault(StoredVector::Named), Some(VectorFault::Named)));
    assert!(matches!(fault(StoredVector::Sparse), Some(VectorFault::Sparse)));
    assert!(matches!(fault(StoredVector::MultiDense), Some(VectorFault::MultiDense)));
    assert!(matches!(fault(StoredVector::Flat(Vec::new())), Some(VectorFault::Empty)));
}

#[test]
fn scrolling_joins_pages_and_filters() {
    let filter = compile_path_glob(Some("src/**")).ok().unwrap();
    let scroll: Scroll<f32> = Scroll::new(filter);
    let page = vec![
        (hit(1, "src/a.ts"), StoredVector::Dense(vec![1.0])),
        (hit(2, "lib/a.ts"), StoredVector::Dense(vec![2.0])),
    ];
    let scroll = match scroll.step(page, true) {
        ScrollStep::More(s) => s,
        _ => panic!("there is another page"),
    };
    match scroll.step(vec![(hit(3, "src/b.ts"), StoredVector::Flat(vec![3.0]))], false) {
        ScrollStep::Finished(rows) => {
            assert_eq!(rows.iter().map(|r| r.0.id).collect::<Vec<_>>(), vec![1, 3]);
            assert_eq!(rows[1].1, vec![3.0]);
        }
        _ => panic!("that was the last page"),
    }
    let scroll: Scroll<f32> = Scroll::new(None);
    assert!(matches!(
        scroll.step(vec![(hit(1, "a"), StoredVector::Sparse)], false),
        ScrollStep::Failed(VectorFault::Sparse)
    ));
}

#[test]
fn qdrant_decisions() {
    assert_eq!(
        ensure_ready(false, false),
        vec![ReadyAction::CreateCollection, ReadyAction::CreatePathIndex]
    );
    assert_eq!(ensure_ready(false, true), vec![ReadyAction::ValidateDim]);
    assert_eq!(
        ensure_ready(true, true),
        vec![ReadyAction::DeleteCollection, ReadyAction::CreateCollection, ReadyAction::CreatePathIndex]
    );
    assert!(validate_existing_collection_dim("code", Some(384), 384).is_ok());
    assert!(validate_existing_collection_dim("code", None, 384).is_ok());
    let msg = validate_existing_collection_dim("code", Some(768), 384).unwrap_err().message();
    assert!(msg.contains("code") && msg.contains("768") && msg.contains("384"), "{msg}");
    assert_eq!(client_url(Some("http://env"), &Some("http://cfg".to_string())), Ok("http://env".to_string()));
    assert_eq!(client_url(None, &Some("http://cfg".to_string())), Ok("http://cfg".to_string()));
    assert!(client_url(None, &None).is_err());
    assert_eq!(api_key(None), None);
    assert_eq!(api_key(Some("k")), Some("k".to_string()));
    assert!(check_vectors(&vec![vec![1.0, 2.0]], 1, 2).is_ok());
    assert!(matches!(check_vectors(&vec![vec![1.0, 2.0]], 2, 2), Err(PointError::Count(_))));
    assert!(matches!(check_vectors(&vec![vec![1.0]], 1, 2), Err(PointError::Dim(_))));
    assert!(batch_end(0, 5) <= 5);
    assert_ne!(upsert_failure(3, true), upsert_failure(3, false));
}

/// Texts are embedded in batches of similar length; the vectors come back in the order of the texts.
#[test]
fn batches_scatter_back() {
    let texts: Vec<String> = (0..70).map(|i| "x".repeat(70 - i)).collect();
    let batches = embed_batches(&texts);
    assert_eq!(batches.iter().map(|b| b.len()).collect::<Vec<_>>(), vec![32, 32, 6]);
    assert_eq!(batches[0][0], 69, "the shortest comes first");
    let results: Vec<Vec<Vec<usize>>> = batches
        .iter()
        .map(|b| b.iter().map(|i| vec![*i]).collect())
        .collect();
    let vectors = scatter(&texts, &batches, results);
    for (i, v) in vectors.iter().enumerate() {
        assert_eq!(v, &vec![i]);
    }
}

#[test]
fn tokens_are_flattened_and_pooled_by_mask() {
    assert_eq!(flatten_tokens(&vec![vec![1, 2], vec![3, 4]]), vec![1, 2, 3, 4]);
    // Two texts of three tokens; the second has one token.
    let mask = vec![1, 1, 1, 1, 0, 0];
    let first = pool_row(&mask, 0, 3, 3, 2);
    assert_eq!(first, vec![(0, 1), (2, 1), (4, 1)]);
    let second = pool_row(&mask, 1, 3, 3, 2);
    assert_eq!(second, vec![(6, 1)]);
}

#[test]
fn a_batch_is_two_rectangular_tables() {
    let ids = vec![vec![101, 7, 102], vec![101, 102, 0]];
    let masks = vec![vec![1, 1, 1], vec![1, 1, 0]];
    assert_eq!(
        token_batch(&ids, &masks),
        Ok(Some(TokenBatch {
            rows: 2,
            seq_len: 3,
            ids: vec![101, 7, 102, 101, 102, 0],
            mask: vec![1, 1, 1, 1, 1, 0],
        }))
    );
    assert_eq!(token_batch(&vec![], &vec![]), Ok(None));
    assert_eq!(token_batch(&vec![vec![]], &vec![vec![]]), Ok(None));
    assert_eq!(token_batch(&vec![vec![1, 2], vec![3]], &masks), Err(TensorFault::InputIds));
    assert_eq!(token_batch(&ids, &vec![vec![1, 1, 1]]), Err(TensorFault::AttentionMask));
    assert_eq!(TensorFault::InputIds.message(), "failed to build input_ids tensor");
    assert_eq!(TensorFault::AttentionMask.message(), "failed to build attention_mask tensor");
}

#[test]
fn a_hidden_state_has_three_dimensions() {
    assert_eq!(hidden_dims(&vec![2, 3, 384]), Ok((3, 384)));
    assert_eq!(
        hidden_dims(&vec![2, 384]),
        Err("expected last_hidden_state rank 3 [batch, seq, hidden], got shape [2, 384]".to_string())
    );
    assert_eq!(
        hidden_dims(&vec![]),
        Err("expected last_hidden_state rank 3 [batch, seq, hidden], got shape []".to_string())
    );
}

#[test]
fn duckdb_statements_with_values() {
    let b = DuckDbBackend { collection: "code".to_string(), vector_dim: 3, path: "idx.db".to_string() };
    let insert = b.insert_sql("[1,2,3]");
    assert!(insert.starts_with("INSERT INTO code (id, path, "));
    assert!(insert.contains("[1,2,3]::FLOAT[3]"));
    assert!(insert.contains("ON CONFLICT (id) DO UPDATE SET path = excluded.path"));
    assert_eq!(
        b.query_sql("[1,2,3]"),
        "SELECT id, path, language, start_line, end_line, text, array_cosine_distance(embedding, [1,2,3]::FLOAT[3]) AS d, commit_sha, dirty FROM code ORDER BY d LIMIT ?"
    );
    assert_eq!(
        b.get_by_location_sql(),
        "SELECT id, path, language, start_line, end_line, text, symbol, embedding FROM code WHERE path = ? AND start_line = ? LIMIT 1"
    );
    assert_eq!(b.has_dirty_sql(), "SELECT EXISTS(SELECT 1 FROM code WHERE dirty LIMIT 1)");
    assert_eq!(
        b.no_duplicate_col_sql(),
        "SELECT EXISTS(SELECT 1 FROM information_schema.columns WHERE table_name = 'code' AND column_name = 'no_duplicate')"
    );
    assert_eq!(
        b.missing_index(),
        "DuckDB index not found at idx.db — run an index first (the MCP server is read-only)"
    );
}

#[test]
fn points_without_a_number_count_as_zero() {
    assert_eq!(point_id_u64(Some(7)), 7);
    assert_eq!(point_id_u64(None), 0);
}

#[test]
fn ollama_refusals_name_the_model() {
    let e = OllamaEmbedder {
        url: "http://localhost:11434".to_string(),
        model: "nomic-embed-text".to_string(),
        prefix_style: PrefixStyle::Bare,
    };
    assert_eq!(
        e.refusal("404 Not Found", " no such model \n"),
        "Ollama /api/embed returned 404 Not Found: no such model (is the model 'nomic-embed-text' pulled? try `ollama pull nomic-embed-text`)"
    );
}
