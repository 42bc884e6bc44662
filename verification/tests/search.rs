//! Clusters of near-duplicates, and lists of search rows.

use semanticastindexer::domain::Hit;
use semanticastindexer::lists::{keep_distinct, keep_reaching};
use semanticastindexer::score::Score;
use semanticastindexer::search::{cluster_duplicates, UnionFind};

fn score(x: f32) -> Score {
    Score::from_bits(x.to_bits())
}

fn hit(id: u64, path: &str, s: f32, no_duplicate: bool) -> Hit {
    Hit {
        id,
        path: path.to_string(),
        language: "ts".to_string(),
        start_line: 1,
        end_line: 1,
        text: String::new(),
        score: score(s),
        symbol: None,
        commit_sha: None,
        dirty: false,
        no_duplicate,
    }
}

#[test]
fn cluster_duplicates_excludes_no_duplicate_chunks() {
    let chunks = vec![
        (hit(1, "src/a.ts", 0.0, false), vec![1.0, 0.0]),
        (hit(2, "src/b.ts", 0.0, false), vec![1.0, 0.0]),
    ];
    let neighbours = vec![
        vec![hit(2, "src/b.ts", 0.99, false)],
        vec![hit(1, "src/a.ts", 0.99, false)],
    ];
    let clusters = cluster_duplicates(&chunks, &neighbours, score(0.95), 2, 50, None);
    assert_eq!(clusters.len(), 1, "unflagged near-identical chunks cluster");

    let chunks = vec![
        (hit(1, "src/a.ts", 0.0, false), vec![1.0, 0.0]),
        (hit(2, "src/b.ts", 0.0, true), vec![1.0, 0.0]),
    ];
    let neighbours = vec![
        vec![hit(2, "src/b.ts", 0.99, false)],
        vec![hit(1, "src/a.ts", 0.99, false)],
    ];
    let clusters = cluster_duplicates(&chunks, &neighbours, score(0.95), 2, 50, None);
    assert!(
        clusters.is_empty(),
        "a no_duplicate chunk is excluded from clustering (as seed and neighbour)"
    );
}

#[test]
fn cluster_duplicates_seeds_only_changed_paths() {
    let chunks = vec![
        (hit(1, "src/a.ts", 0.0, false), vec![1.0, 0.0]),
        (hit(2, "src/b.ts", 0.0, false), vec![1.0, 0.0]),
        (hit(3, "src/c.ts", 0.0, false), vec![0.0, 1.0]),
        (hit(4, "src/d.ts", 0.0, false), vec![0.0, 1.0]),
    ];
    let neighbours = vec![
        vec![hit(2, "src/b.ts", 0.99, false)],
        vec![hit(1, "src/a.ts", 0.99, false)],
        vec![hit(4, "src/d.ts", 0.99, false)],
        vec![hit(3, "src/c.ts", 0.99, false)],
    ];

    let seeds: Vec<String> = vec![String::from("src/a.ts")];
    let clusters = cluster_duplicates(&chunks, &neighbours, score(0.95), 2, 50, Some(&seeds));
    assert_eq!(clusters.len(), 1, "only the changed file's duplicate surfaces");
    let paths: Vec<&str> = clusters[0].members.iter().map(|m| m.path.as_str()).collect();
    assert!(paths.contains(&"src/a.ts"), "the changed seed is present");
    assert!(
        paths.contains(&"src/b.ts"),
        "the untouched code it duplicates is pulled in as a neighbour"
    );
    assert!(
        !paths.contains(&"src/c.ts") && !paths.contains(&"src/d.ts"),
        "the untouched pre-existing pair is not reported"
    );

    let clusters = cluster_duplicates(&chunks, &neighbours, score(0.95), 2, 50, None);
    assert_eq!(clusters.len(), 2, "whole-DB scan reports both duplicate pairs");
}

#[test]
fn union_find_groups_transitively() {
    let mut uf = UnionFind::new(5);
    uf.union(0, 1);
    uf.union(1, 2);
    uf.union(3, 4);
    assert_eq!(uf.find(0), uf.find(2), "0-1-2 are one set");
    assert_eq!(uf.find(3), uf.find(4), "3-4 are one set");
    assert_ne!(uf.find(0), uf.find(3), "the two sets are disjoint");
}

/// A chain of links is one cluster; its members keep the order of the chunks, and its bounds are the
/// least and the greatest similarity in it.
#[test]
fn a_chain_is_one_cluster_with_its_bounds() {
    let chunks = vec![
        (hit(1, "a", 0.0, false), ()),
        (hit(2, "b", 0.0, false), ()),
        (hit(3, "c", 0.0, false), ()),
        (hit(4, "d", 0.0, false), ()),
    ];
    let neighbours = vec![
        vec![hit(2, "b", 0.97, false), hit(4, "d", 0.5, false)],
        vec![hit(3, "c", 0.99, false), hit(9, "gone", 0.99, false)],
        vec![],
        vec![],
    ];
    let clusters = cluster_duplicates(&chunks, &neighbours, score(0.95), 2, 50, None);
    assert_eq!(clusters.len(), 1);
    assert_eq!(clusters[0].size, 3);
    let paths: Vec<&str> = clusters[0].members.iter().map(|m| m.path.as_str()).collect();
    assert_eq!(paths, vec!["a", "b", "c"]);
    assert_eq!(clusters[0].min_sim, score(0.97));
    assert_eq!(clusters[0].max_sim, score(0.99));
}

/// Larger clusters come first, and only as many as asked for; smaller ones than asked for are left
/// out.
#[test]
fn larger_clusters_come_first() {
    let chunks = vec![
        (hit(1, "a", 0.0, false), ()),
        (hit(2, "b", 0.0, false), ()),
        (hit(3, "c", 0.0, false), ()),
        (hit(4, "d", 0.0, false), ()),
        (hit(5, "e", 0.0, false), ()),
    ];
    let neighbours = || {
        vec![
            vec![hit(2, "b", 0.99, false)],
            vec![],
            vec![hit(4, "d", 0.99, false), hit(5, "e", 0.99, false)],
            vec![],
            vec![],
        ]
    };
    let all = cluster_duplicates(&chunks, &neighbours(), score(0.95), 2, 50, None);
    assert_eq!(all.iter().map(|c| c.size).collect::<Vec<_>>(), vec![3, 2]);
    let one = cluster_duplicates(&chunks, &neighbours(), score(0.95), 2, 1, None);
    assert_eq!(one.len(), 1);
    assert_eq!(one[0].size, 3);
    let big = cluster_duplicates(&chunks, &neighbours(), score(0.95), 4, 50, None);
    assert!(big.is_empty());
}

/// A score that is no number links nothing below the bound, and a link at the bound counts.
#[test]
fn a_link_at_the_bound_counts() {
    let chunks = vec![(hit(1, "a", 0.0, false), ()), (hit(2, "b", 0.0, false), ())];
    let at = vec![vec![hit(2, "b", 0.95, false)], vec![]];
    assert_eq!(cluster_duplicates(&chunks, &at, score(0.95), 2, 50, None).len(), 1);
    let below = vec![vec![hit(2, "b", 0.9499, false)], vec![]];
    assert!(cluster_duplicates(&chunks, &below, score(0.95), 2, 50, None).is_empty());
}

#[test]
fn rows_below_the_least_score_are_dropped() {
    let rows = vec![hit(1, "a", 0.9, false), hit(2, "b", 0.8, false), hit(3, "c", 0.85, false)];
    let kept = keep_reaching(rows, score(0.85));
    assert_eq!(kept.iter().map(|h| h.id).collect::<Vec<_>>(), vec![1, 3]);
}

#[test]
fn repeated_ids_are_dropped_before_the_cut() {
    let rows = vec![
        hit(1, "a", 0.9, false),
        hit(1, "a", 0.9, false),
        hit(2, "b", 0.8, false),
        hit(3, "c", 0.7, false),
    ];
    let kept = keep_distinct(rows, Some(2), 2);
    assert_eq!(kept.iter().map(|h| h.id).collect::<Vec<_>>(), vec![1, 3]);
    assert!(keep_distinct(vec![hit(1, "a", 0.9, false)], None, 0).is_empty());
}

#[test]
fn scores_order_like_their_numbers() {
    let values = [-1.5f32, -0.0, 0.0, 0.25, 0.93, 1.0, f32::INFINITY];
    for a in values {
        for b in values {
            assert_eq!(score(a).is_below(&score(b)), a < b, "{a} < {b}");
            assert_eq!(score(a).is_totally_below(&score(b)), a.total_cmp(&b).is_lt(), "{a} {b}");
        }
    }
    let nan = score(f32::NAN);
    assert!(nan.is_nan());
    assert!(!nan.is_below(&score(1.0)) && !score(1.0).is_below(&nan));
    assert_eq!(score(0.2).min(nan), score(0.2));
    assert_eq!(nan.max(score(0.2)), score(0.2));
    assert_eq!(score(0.2).max(score(0.4)), score(0.4));
}

fn members(clusters: &[semanticastindexer::domain::DupCluster]) -> Vec<Vec<String>> {
    clusters.iter().map(|c| c.members.iter().map(|m| m.path.clone()).collect()).collect()
}

/// The neighbour lists of chunks that may not seed change nothing.
#[test]
fn lists_of_other_chunks_do_not_matter() {
    let chunks = vec![
        (hit(1, "src/a.ts", 0.0, false), ()),
        (hit(2, "src/b.ts", 0.0, false), ()),
        (hit(3, "src/c.ts", 0.0, false), ()),
    ];
    let full = vec![
        vec![hit(2, "src/b.ts", 0.99, false)],
        vec![hit(3, "src/c.ts", 0.98, false)],
        vec![hit(2, "src/b.ts", 0.98, false)],
    ];
    let bare = vec![vec![hit(2, "src/b.ts", 0.99, false)], Vec::new(), Vec::new()];
    let seeds = vec!["src/a.ts".to_string()];
    let a = cluster_duplicates(&chunks, &full, score(0.95), 2, 50, Some(&seeds));
    let b = cluster_duplicates(&chunks, &bare, score(0.95), 2, 50, Some(&seeds));
    assert_eq!(members(&a), vec![vec!["src/a.ts", "src/b.ts"]]);
    assert_eq!(members(&a), members(&b));
}

/// A chunk that opted out can be taken out without a trace.
#[test]
fn opted_out_chunks_leave_no_trace() {
    let out = (hit(9, "src/x.ts", 0.0, true), ());
    let chunks = vec![(hit(1, "src/a.ts", 0.0, false), ()), out, (hit(2, "src/b.ts", 0.0, false), ())];
    let lists = vec![
        vec![hit(9, "src/x.ts", 0.99, true), hit(2, "src/b.ts", 0.97, false)],
        vec![hit(1, "src/a.ts", 0.99, false), hit(2, "src/b.ts", 0.99, false)],
        vec![hit(9, "src/x.ts", 0.99, true)],
    ];
    let with = cluster_duplicates(&chunks, &lists, score(0.95), 2, 50, None);
    let mut fewer = chunks;
    let mut fewer_lists = lists;
    fewer.remove(1);
    fewer_lists.remove(1);
    let without = cluster_duplicates(&fewer, &fewer_lists, score(0.95), 2, 50, None);
    assert_eq!(members(&with), vec![vec!["src/a.ts", "src/b.ts"]]);
    assert_eq!(members(&with), members(&without));
    assert_eq!((with[0].min_sim, with[0].max_sim), (without[0].min_sim, without[0].max_sim));
}
