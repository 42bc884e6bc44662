//! Texts, git output and the worker's requests.

use semanticastindexer::chunking::{cut, is_generated, marks};
use semanticastindexer::git::{capture, changed_files, is_dirty, listed_files, ChangedFiles, GitOutput};
use semanticastindexer::text;
use semanticastindexer::worker::{plan_job, worker_gone, Job, Request, Side, StoreCall};

fn output(success: bool, stdout: &str, stderr: &str) -> Option<GitOutput> {
    Some(GitOutput { success, stdout: stdout.to_string(), stderr: stderr.to_string() })
}

#[test]
fn changed_files_returns_explicit_paths_verbatim() {
    let explicit = vec!["a.rs".to_string(), "b/c.ts".to_string()];
    match changed_files(Some("HEAD~1"), false, &explicit) {
        ChangedFiles::Explicit(got) => assert_eq!(got, explicit),
        ChangedFiles::Diff(_) => panic!("git is not asked"),
    }
}

#[test]
fn git_output_is_read() {
    let ctx = capture(&output(true, "abc123\n", ""), Some(true), Some(true));
    assert_eq!(ctx.sha.as_deref(), Some("abc123"));
    assert!(!ctx.dirty);
    let ctx = capture(&output(false, "abc123\n", ""), Some(true), Some(false));
    assert_eq!(ctx.sha, None);
    assert!(ctx.dirty);
    assert_eq!(capture(&None, Some(true), Some(true)).sha, None);
    assert_eq!(capture(&output(true, " \n", ""), Some(true), Some(true)).sha, None);
    assert!(is_dirty(None, Some(true)), "what is not known counts as dirty");
    assert_eq!(
        listed_files(&output(true, "a.ts\n\n b/c.ts \r\n", "")).unwrap(),
        vec!["a.ts", "b/c.ts"]
    );
    assert_eq!(
        listed_files(&output(false, "", "fatal: bad revision\n")).unwrap_err().message(),
        "git diff failed: fatal: bad revision"
    );
    assert_eq!(
        listed_files(&None).unwrap_err().message(),
        "failed to run `git diff` (is git on PATH?)"
    );
}

#[test]
fn texts_behave_like_their_counterparts() {
    let samples = ["", " a b ", "x\r\ny\n", "\u{a0}é\u{2003}", "a,b,,c", "NO Way", "---", "\n\n"];
    for s in samples {
        assert_eq!(text::trim(s), s.trim(), "{s:?}");
        assert_eq!(text::to_lower(s), s.to_ascii_lowercase(), "{s:?}");
        assert_eq!(text::lines_of(s), s.lines().collect::<Vec<_>>(), "{s:?}");
        assert_eq!(text::split_on(s, ','), s.split(',').collect::<Vec<_>>(), "{s:?}");
        assert_eq!(text::trim_front(s, '-'), s.trim_start_matches('-'), "{s:?}");
        assert_eq!(text::trim_back(s, '-'), s.trim_end_matches('-'), "{s:?}");
        assert_eq!(text::byte_len_of(s), s.len() as u128, "{s:?}");
        for t in samples {
            assert_eq!(text::same(s, t), s == t, "{s:?} {t:?}");
            assert_eq!(text::contains(s, t), s.contains(t), "{s:?} {t:?}");
            assert_eq!(text::is_before(s, t), s < t, "{s:?} {t:?}");
        }
    }
    for n in [0, 9, 10, 12345, u64::MAX] {
        assert_eq!(text::decimal_of(n), n.to_string());
        assert_eq!(text::parse_number(&n.to_string()), Some(n));
    }
    assert_eq!(text::wide_decimal_of(u128::MAX), u128::MAX.to_string());
    assert_eq!(text::signed_of(i64::MIN), i64::MIN.to_string());
    for bad in ["", "+", "-1", "1x", " 1", "18446744073709551616"] {
        assert_eq!(text::parse_number(bad), bad.parse::<u64>().ok(), "{bad:?}");
    }
    assert_eq!(text::parse_number("+7"), Some(7));
    assert_eq!(text::trim_here("././a"), "././a".trim_start_matches("./"));
}

/// Texts sort by their characters' code points, which is how their bytes sort.
#[test]
fn order_of_texts_is_the_order_of_bytes() {
    let samples = ["", "a", "ab", "b", "é", "\u{10000}", "\u{ffff}"];
    for a in samples {
        for b in samples {
            assert_eq!(text::is_before(a, b), a.as_bytes() < b.as_bytes(), "{a:?} {b:?}");
        }
    }
}

#[test]
fn worker_embeds_queries_only_where_it_can() {
    let request = || Request::SearchByQuery::<Vec<f32>> { query: "q".to_string(), fetch: 32 };
    match plan_job(request(), true) {
        Job::EmbedThenSearch { side: Side::Query, text, limit } => assert_eq!((text.as_str(), limit), ("q", 32)),
        _ => panic!("embedded here"),
    }
    match plan_job(request(), false) {
        Job::Call(StoreCall::Query { query, limit }) => assert_eq!((query.as_str(), limit), ("q", 32)),
        _ => panic!("the server embeds"),
    }
    match plan_job(Request::SearchByPassage::<Vec<f32>> { code: "c".to_string(), limit: 3 }, false) {
        Job::EmbedThenSearch { side: Side::Passage, .. } => {}
        _ => panic!("a snippet is always embedded here"),
    }
    match plan_job(Request::QueryByVector { vector: vec![1.0f32], limit: 3, exclude_id: Some(4) }, true) {
        Job::Call(StoreCall::QueryByVector { vector, limit, exclude_id }) => {
            assert_eq!((vector, limit, exclude_id), (vec![1.0], 3, Some(4)));
        }
        _ => panic!("one call"),
    }
    assert_eq!(worker_gone(), "backend worker thread is no longer running");
}

#[test]
fn markers_opt_chunks_out() {
    assert_eq!(marks("// sai-noindexing\n", true, true), None);
    assert_eq!(marks("// sai-noindexing\n", false, true), Some(false));
    assert_eq!(marks("// sai-noduplicate\n", true, true), Some(true));
    assert_eq!(marks("// sai-noduplicate\n", true, false), Some(false));
    assert_eq!(marks("return 1", true, true), Some(false));

    let out = cut("export function a() {\n  // sai-noindexing\n  return 1\n}\n", 4000, true, true);
    assert!(out.is_empty(), "sai-noindexing chunks are never stored");
    let flagged = cut("export function b() {\n  // sai-noduplicate\n  return 2\n}\n", 4000, true, true);
    assert_eq!(flagged.len(), 1, "sai-noduplicate chunks are still indexed");
    assert!(flagged.iter().all(|p| p.no_duplicate), "sai-noduplicate chunks carry the flag");
    assert_eq!((flagged[0].start_line, flagged[0].end_line), (1, 4));
}

#[test]
fn generated_files_say_so_at_the_top() {
    assert!(is_generated("// @generated\nexport function gen() { return 0 }\n"));
    assert!(is_generated("\n\n\n\n/* @generated */"));
    assert!(!is_generated("\n\n\n\n\n// @generated\n"));
    assert!(!is_generated("export function keep() {}\n"));
}

#[test]
fn files_are_cut_into_windows_of_lines() {
    let raw: String = (1..=85).map(|i| format!("line {i}\n")).collect();
    let pieces = cut(&raw, 10_000, true, true);
    let spans: Vec<(usize, usize)> = pieces.iter().map(|p| (p.start_line, p.end_line)).collect();
    assert_eq!(spans, vec![(1, 40), (41, 80), (81, 85)]);
    assert!(pieces[2].text.starts_with("line 81\nline 82"));
    assert_eq!(cut(&raw, 6, true, true)[1].text, "line 4");
    assert!(cut("\n  \n\n", 100, true, true).is_empty(), "blank chunks are not stored");
    assert!(cut("", 100, true, true).is_empty());
}
