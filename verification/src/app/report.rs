//! What the commands ask and print, and how their flags are resolved.

use crate::cli::{DuplicatesArgs, SimilarArgs};
use crate::domain::{DupMember, Hit, IndexProgress, IndexReport, Plan, RefreshReport, ReindexOutcome, SimilarTarget};
use crate::git;
use crate::git::{changed_files, ChangedFiles, GitContext};
use crate::score::Score;
use crate::service::query::DuplicateKnobs;
use crate::text;
use vstd::prelude::*;

verus! {

/// The clusters printed where `--max-clusters` is not given.
pub const DEFAULT_DUP_MAX_CLUSTERS: usize = 50;

/// Said where the index holds chunks of uncommitted work.
pub const DIRTY_WARNING: &'static str =
    "warning: index contains dirty chunks (uncommitted changes). duplicates may reflect a dirty working tree.";

/// Said where HTTP was asked for and is not built in.
pub const HTTP_UNAVAILABLE: &'static str =
    "`--http` requires a build with `--features mcp-http` (this binary has only the stdio MCP transport)";

/// Said where nothing changed.
pub const NOTHING_CHANGED: &'static str = "sync: no changed files";

/// The closing report of a command.
#[derive(Debug)]
pub struct FinishLine {
    pub sha: String,
    pub message: String,
}

/// The closing report: the commit, and whether the run was dry or the tree dirty.
pub fn finish_line(ctx: &GitContext, dry_run: bool) -> (r: FinishLine)
    ensures
        r.sha@ == match ctx.sha {
            Some(s) => s@,
            None => "unknown"@,
        },
        r.message@ == "done"@ + (if dry_run {
            " (dry-run)"@
        } else {
            ""@
        }) + (if ctx.dirty {
            ", dirty"@
        } else {
            ""@
        }),
{
    let sha = match &ctx.sha {
        Some(s) => s.clone(),
        None => "unknown".to_string(),
    };
    let message = "done".to_string().concat(
        if dry_run {
            " (dry-run)"
        } else {
            ""
        },
    ).concat(
        if ctx.dirty {
            ", dirty"
        } else {
            ""
        },
    );
    FinishLine { sha, message }
}

/// Whether an answer to a yes/no question is yes. Anything else is no.
pub fn is_yes(line: &str) -> (r: bool)
    ensures
        r == (text::lower(text::trimmed(line@)) == "y"@ || text::lower(text::trimmed(line@)) == "yes"@),
{
    let answer = text::to_lower(text::trim(line).as_str());
    text::same(answer.as_str(), "y") || text::same(answer.as_str(), "yes")
}

/// Whether a yes/no question was answered with yes. Where nobody can answer, the answer is no.
pub fn confirmed(interactive: bool, line: &str) -> (r: bool)
    ensures
        r == (interactive && (text::lower(text::trimmed(line@)) == "y"@ || text::lower(text::trimmed(line@))
            == "yes"@)),
{
    interactive && is_yes(line)
}

/// What is asked before a file with vectors of another size is deleted.
pub fn rebuild_question(path: &str) -> (r: String)
    ensures
        r@ == "The index at '"@ + path@
            + "' was built with a different embedding model (dimension mismatch). Delete it and re-index from scratch?"@,
{
    "The index at '".to_string().concat(path).concat(
        "' was built with a different embedding model (dimension mismatch). Delete it and re-index from scratch?",
    )
}

/// The write-ahead file beside a DuckDB file.
pub fn wal_path(path: &str) -> (r: String)
    ensures
        r@ == path@ + ".wal"@,
{
    path.to_string().concat(".wal")
}

/// What is done about an index with chunks of uncommitted work.
#[derive(Debug)]
pub enum DirtyCheck {
    /// Nothing.
    Proceed,
    /// This is asked, and anything but yes ends the command.
    Ask(String),
    /// This is logged.
    Warn(String),
}

/// Decides what is done about chunks of uncommitted work: nothing where the command is silent, or where
/// the store holds none or could not tell.
pub fn dirty_check(silent: bool, has_dirty: Option<bool>, interactive: bool) -> (r: DirtyCheck)
    ensures
        silent || has_dirty != Some(true) ==> r matches DirtyCheck::Proceed,
        !silent && has_dirty == Some(true) && interactive ==> (r matches DirtyCheck::Ask(q) && q@ == DIRTY_WARNING@
            + " Proceed?"@),
        !silent && has_dirty == Some(true) && !interactive ==> (r matches DirtyCheck::Warn(w) && w@ == DIRTY_WARNING@),
{
    if silent {
        return DirtyCheck::Proceed;
    }
    match has_dirty {
        Some(true) => {
            if interactive {
                DirtyCheck::Ask(DIRTY_WARNING.to_string().concat(" Proceed?"))
            } else {
                DirtyCheck::Warn(DIRTY_WARNING.to_string())
            }
        },
        _ => DirtyCheck::Proceed,
    }
}

/// The progress display of an indexing run.
#[derive(Debug)]
pub struct ProgressDisplay {
    /// Whether progress is shown at all.
    pub shown: bool,
    /// The file announced last.
    pub last_path: Option<String>,
    /// Whether anything was shown.
    pub emitted: bool,
}

/// The line that announces a file.
pub open spec fn file_line(p: IndexProgress) -> Seq<char> {
    "\r\x1b[K  [ "@ + text::decimal(p.files_done as nat) + "/"@ + text::decimal(p.files_total as nat)
        + " files ] indexing "@ + p.path@ + "\n"@
}

/// The line that counts the chunks.
pub open spec fn chunk_line(p: IndexProgress) -> Seq<char> {
    "\rembedded "@ + text::decimal(p.chunks_done as nat) + "/"@ + text::decimal(p.chunks_total as nat) + " chunks"@
}

impl ProgressDisplay {
    /// A display that has shown nothing.
    pub fn new(interactive: bool, silent: bool) -> (r: ProgressDisplay)
        ensures
            r.shown == (interactive && !silent),
            r.last_path is None,
            !r.emitted,
    {
        ProgressDisplay { shown: interactive && !silent, last_path: None, emitted: false }
    }

    /// What is shown for a batch: the file, where it is another than before, and the count.
    pub fn show(&mut self, p: &IndexProgress) -> (r: String)
        ensures
            final(self).shown == old(self).shown,
            !old(self).shown ==> r@ == ""@ && *final(self) == *old(self),
            old(self).shown ==> {
                &&& final(self).emitted
                &&& final(self).last_path matches Some(s) && s@ == p.path@
                &&& r@ == (if old(self).last_path matches Some(s) && s@ == p.path@ {
                    ""@
                } else {
                    file_line(*p)
                }) + chunk_line(*p)
            },
    {
        if !self.shown {
            return "".to_string();
        }
        self.emitted = true;
        let known = match &self.last_path {
            Some(s) => text::same(s.as_str(), p.path.as_str()),
            None => false,
        };
        let head = if known {
            "".to_string()
        } else {
            "\r\x1b[K  [ ".to_string().concat(text::decimal_of(p.files_done as u64).as_str()).concat("/").concat(
                text::decimal_of(p.files_total as u64).as_str(),
            ).concat(" files ] indexing ").concat(p.path.as_str()).concat("\n")
        };
        self.last_path = Some(p.path.clone());
        let tail = "\rembedded ".to_string().concat(text::decimal_of(p.chunks_done as u64).as_str()).concat("/").concat(
            text::decimal_of(p.chunks_total as u64).as_str(),
        ).concat(" chunks");
        head.concat(tail.as_str())
    }
}

/// The summary of an indexing run.
pub fn index_summary(report: &IndexReport, plan: &Plan) -> (r: String)
    ensures
        r@ == "indexed "@ + text::decimal(report.chunks as nat) + " chunks from "@ + text::decimal(report.files as nat)
            + " "@ + text::joined(text::views(plan.ext@), "/"@) + " file(s) into '"@ + plan.collection@ + "' ("@
            + text::decimal(report.skipped as nat) + " file(s) skipped by config)"@,
{
    "indexed ".to_string().concat(text::decimal_of(report.chunks as u64).as_str()).concat(" chunks from ").concat(
        text::decimal_of(report.files as u64).as_str(),
    ).concat(" ").concat(text::join(&plan.ext, "/").as_str()).concat(" file(s) into '").concat(
        plan.collection.as_str(),
    ).concat("' (").concat(text::decimal_of(report.skipped as u64).as_str()).concat(" file(s) skipped by config)")
}

/// The line that tells what became of a path.
pub open spec fn outcome_line(entry: (String, ReindexOutcome)) -> Seq<char> {
    match entry.1 {
        ReindexOutcome::Removed { reason } => "  - "@ + entry.0@ + " ("@ + reason@ + ")"@,
        ReindexOutcome::Reindexed { chunks } => "  + "@ + entry.0@ + " ("@ + text::decimal(chunks as nat) + " chunks)"@,
    }
}

/// How many paths were indexed again, how many were removed, and how many chunks were stored.
pub open spec fn tally(entries: Seq<(String, ReindexOutcome)>) -> (nat, nat, nat)
    decreases entries.len(),
{
    if entries.len() == 0 {
        (0, 0, 0)
    } else {
        let t = tally(entries.drop_last());
        match entries.last().1 {
            ReindexOutcome::Removed { reason } => (t.0, t.1 + 1, t.2),
            ReindexOutcome::Reindexed { chunks } => (t.0 + 1, t.1, t.2 + chunks as nat),
        }
    }
}

/// The last line of a sync report.
pub open spec fn sync_total(entries: Seq<(String, ReindexOutcome)>) -> Seq<char> {
    let t = tally(entries);
    "sync: "@ + text::decimal(t.0) + " file(s) re-indexed ("@ + text::decimal(t.2) + " chunks), "@ + text::decimal(t.1)
        + " file(s) removed"@
}

/// The report of a sync: a line for each path, in order, and the totals.
pub fn sync_report(report: &RefreshReport) -> (r: Vec<String>)
    ensures
        text::views(r@) == report.entries@.map_values(|e: (String, ReindexOutcome)| outcome_line(e)).push(
            sync_total(report.entries@),
        ),
{
    let ghost all = report.entries@;
    let ghost told = all.map_values(|e: (String, ReindexOutcome)| outcome_line(e));
    let mut lines: Vec<String> = Vec::new();
    let mut reindexed: u128 = 0;
    let mut removed: u128 = 0;
    let mut total: u128 = 0;
    let mut i: usize = 0;
    assert(all.take(0) =~= Seq::<(String, ReindexOutcome)>::empty());
    while i < report.entries.len()
        invariant
            i <= report.entries@.len(),
            all == report.entries@,
            told == all.map_values(|e: (String, ReindexOutcome)| outcome_line(e)),
            text::views(lines@) =~= told.take(i as int),
            (reindexed as nat, removed as nat, total as nat) == tally(all.take(i as int)),
            reindexed <= i,
            removed <= i,
            total <= i * usize::MAX,
        decreases report.entries@.len() - i,
    {
        let entry = &report.entries[i];
        let ghost before = lines@;
        proof {
            assert(all.take(i + 1).drop_last() =~= all.take(i as int));
            assert(i * usize::MAX + usize::MAX == (i + 1) * usize::MAX) by (nonlinear_arith);
            assert((i + 1) * usize::MAX <= u128::MAX) by (nonlinear_arith)
                requires
                    i + 1 <= usize::MAX,
                    usize::MAX <= 0xffff_ffff_ffff_ffff,
            ;
        }
        match &entry.1 {
            ReindexOutcome::Removed { reason } => {
                removed = removed + 1;
                lines.push("  - ".to_string().concat(entry.0.as_str()).concat(" (").concat(reason).concat(")"));
            },
            ReindexOutcome::Reindexed { chunks } => {
                reindexed = reindexed + 1;
                total = total + *chunks as u128;
                lines.push(
                    "  + ".to_string().concat(entry.0.as_str()).concat(" (").concat(
                        text::decimal_of(*chunks as u64).as_str(),
                    ).concat(" chunks)"),
                );
            },
        }
        assert(lines@.last()@ == told[i as int]);
        assert(lines@ =~= before.push(lines@.last()));
        assert(text::views(lines@) =~= text::views(before).push(told[i as int]));
        assert(told.take(i + 1) =~= told.take(i as int).push(told[i as int]));
        i += 1;
    }
    assert(all.take(i as int) =~= all);
    assert(told.take(i as int) =~= told);
    lines.push(
        "sync: ".to_string().concat(text::wide_decimal_of(reindexed).as_str()).concat(" file(s) re-indexed (").concat(
            text::wide_decimal_of(total).as_str(),
        ).concat(" chunks), ").concat(text::wide_decimal_of(removed).as_str()).concat(" file(s) removed"),
    );
    assert(text::views(lines@) =~= told.push(sync_total(all)));
    lines
}

/// The resolved flags of `duplicates`.
#[derive(Debug)]
pub struct DuplicatesRequest {
    pub knobs: DuplicateKnobs,
    /// Where the files come from that may seed a cluster. `None` lets every file seed one.
    pub seeds: Option<ChangedFiles>,
}

impl DuplicatesRequest {
    /// Whether only some files may seed a cluster.
    pub fn seeded(&self) -> (r: bool)
        ensures
            r == self.seeds is Some,
    {
        self.seeds.is_some()
    }
}

/// Resolves the flags of `duplicates`: the flag, else the plan's value. A revision, `--staged` or a file
/// restricts the seeds to changed files.
pub fn resolve_duplicates(plan: &Plan, args: &DuplicatesArgs) -> (r: DuplicatesRequest)
    ensures
        r.knobs.min_score == (match args.min_score {
            Some(s) => s,
            None => plan.duplicate_min_score,
        }),
        r.knobs.min_cluster_size == crate::mcp::at_least_one(
            match args.min_cluster_size {
                Some(n) => n as int,
                None => plan.duplicate_min_cluster_size as int,
            },
        ),
        r.knobs.top_k == (match args.top_k {
            Some(k) => k as int,
            None => plan.top_k as int,
        }),
        r.knobs.max_clusters == (match args.max_clusters {
            Some(n) => n,
            None => DEFAULT_DUP_MAX_CLUSTERS,
        }),
        r.seeds is Some <==> args.since is Some || args.staged || args.files@.len() > 0,
        args.files@.len() > 0 ==> (r.seeds matches Some(ChangedFiles::Explicit(files)) && files@ == args.files@),
        args.files@.len() == 0 && (args.since is Some || args.staged) ==> (r.seeds matches Some(
            ChangedFiles::Diff(list),
        ) && text::views(list@) == git::diff_args(
            match args.since {
                Some(s) => Some(s@),
                None => None,
            },
            args.staged,
        )),
{
    let size: usize = match args.min_cluster_size {
        Some(n) => n,
        None => plan.duplicate_min_cluster_size(),
    };
    let knobs = DuplicateKnobs {
        min_score: match args.min_score {
            Some(s) => s,
            None => plan.duplicate_min_score(),
        },
        min_cluster_size: if size < 1 {
            1
        } else {
            size
        },
        top_k: match args.top_k {
            Some(k) => k,
            None => plan.top_k() as u64,
        },
        max_clusters: match args.max_clusters {
            Some(n) => n,
            None => DEFAULT_DUP_MAX_CLUSTERS,
        },
    };
    let since: Option<&str> = match &args.since {
        Some(s) => Some(s.as_str()),
        None => None,
    };
    let seeds = if since.is_some() || args.staged || args.files.len() > 0 {
        Some(changed_files(since, args.staged, &args.files))
    } else {
        None
    };
    DuplicatesRequest { knobs, seeds }
}

/// The knobs as they are printed. `min_score` is the score as a decimal fraction.
pub open spec fn knobs_text(knobs: DuplicateKnobs, min_score: Seq<char>) -> Seq<char> {
    "(min_score "@ + min_score + ", min_cluster_size "@ + text::decimal(knobs.min_cluster_size as nat) + ", top_k "@
        + text::decimal(knobs.top_k as nat) + ")"@
}

/// The first line of the printed clusters. `min_score` is the score as a decimal fraction.
pub fn duplicates_header(knobs: &DuplicateKnobs, min_score: &str, count: usize) -> (r: String)
    ensures
        r@ == if count == 0 {
            "no near-duplicate clusters "@ + knobs_text(*knobs, min_score@)
        } else {
            text::decimal(count as nat) + " near-duplicate cluster(s) "@ + knobs_text(*knobs, min_score@) + ":"@
        },
{
    let shown = "(min_score ".to_string().concat(min_score).concat(", min_cluster_size ").concat(
        text::decimal_of(knobs.min_cluster_size as u64).as_str(),
    ).concat(", top_k ").concat(text::decimal_of(knobs.top_k).as_str()).concat(")");
    if count == 0 {
        "no near-duplicate clusters ".to_string().concat(shown.as_str())
    } else {
        text::decimal_of(count as u64).concat(" near-duplicate cluster(s) ").concat(shown.as_str()).concat(":")
    }
}

/// A place in a file: `path:start-end`.
pub open spec fn place(path: Seq<char>, start: nat, end: nat) -> Seq<char> {
    path + ":"@ + text::decimal(start) + "-"@ + text::decimal(end)
}

fn place_of(path: &str, start: usize, end: usize) -> (r: String)
    ensures
        r@ == place(path@, start as nat, end as nat),
{
    path.to_string().concat(":").concat(text::decimal_of(start as u64).as_str()).concat("-").concat(
        text::decimal_of(end as u64).as_str(),
    )
}

/// The symbol, or nothing.
pub open spec fn symbol_text(symbol: Option<String>) -> Seq<char> {
    match symbol {
        Some(s) => s@,
        None => ""@,
    }
}

fn symbol_of(symbol: &Option<String>) -> (r: String)
    ensures
        r@ == symbol_text(*symbol),
{
    match symbol {
        Some(s) => s.clone(),
        None => "".to_string(),
    }
}

/// The line of a cluster member.
pub fn member_line(m: &DupMember) -> (r: String)
    ensures
        r@ == "  "@ + place(m.path@, m.start_line as nat, m.end_line as nat) + "  "@ + symbol_text(m.symbol),
{
    "  ".to_string().concat(place_of(m.path.as_str(), m.start_line, m.end_line).as_str()).concat("  ").concat(
        symbol_of(&m.symbol).as_str(),
    )
}

/// The line of a query result. `score` is its score as a decimal fraction.
pub fn hit_line(h: &Hit, score: &str) -> (r: String)
    ensures
        r@ == "  "@ + score@ + "  "@ + place(h.path@, h.start_line as nat, h.end_line as nat),
{
    "  ".to_string().concat(score).concat("  ").concat(place_of(h.path.as_str(), h.start_line, h.end_line).as_str())
}

/// The line of a neighbour. `score` is its score as a decimal fraction.
pub fn neighbour_line(h: &Hit, score: &str) -> (r: String)
    ensures
        r@ == "  "@ + score@ + "  "@ + place(h.path@, h.start_line as nat, h.end_line as nat) + "  "@ + symbol_text(
            h.symbol,
        ),
{
    hit_line(h, score).concat("  ").concat(symbol_of(&h.symbol).as_str())
}

/// Why the flags of `similar` cannot be used.
#[derive(Clone, Copy, Debug, PartialEq, Eq, Structural)]
pub enum SimilarError {
    /// A snippet and a place.
    Both,
    /// Half a place.
    HalfPlace,
    /// Neither.
    Neither,
}

impl SimilarError {
    /// The text of the error.
    pub open spec fn told(&self) -> Seq<char> {
        match self {
            SimilarError::Both => "similar: provide EITHER --code OR (--path and --line), not both"@,
            SimilarError::HalfPlace => "similar: --path and --line must be given together"@,
            SimilarError::Neither => "similar: provide either --code or both --path and --line"@,
        }
    }

    /// What to tell the user.
    pub fn message(&self) -> (r: String)
        ensures
            r@ == self.told(),
    {
        match self {
            SimilarError::Both => "similar: provide EITHER --code OR (--path and --line), not both".to_string(),
            SimilarError::HalfPlace => "similar: --path and --line must be given together".to_string(),
            SimilarError::Neither => "similar: provide either --code or both --path and --line".to_string(),
        }
    }
}

/// What `similar` looks for: a snippet, or a place with path and line, but not both.
pub fn similar_target(args: &SimilarArgs) -> (r: Result<SimilarTarget, SimilarError>)
    ensures
        args.code is Some && (args.path is Some || args.line is Some) ==> r matches Err(SimilarError::Both),
        args.code is Some && args.path is None && args.line is None ==> (r matches Ok(SimilarTarget::Code(c)) && c@
            == args.code->0@),
        args.code is None && args.path is Some && args.line is Some ==> (r matches Ok(
            SimilarTarget::Location { path, line },
        ) && path@ == args.path->0@ && Some(line) == args.line),
        args.code is None && (args.path is Some != args.line is Some) ==> r matches Err(SimilarError::HalfPlace),
        args.code is None && args.path is None && args.line is None ==> r matches Err(SimilarError::Neither),
{
    match &args.code {
        Some(code) => {
            if args.path.is_some() || args.line.is_some() {
                Err(SimilarError::Both)
            } else {
                Ok(SimilarTarget::Code(code.clone()))
            }
        },
        None => match &args.path {
            Some(path) => match args.line {
                Some(line) => Ok(SimilarTarget::Location { path: path.clone(), line }),
                None => Err(SimilarError::HalfPlace),
            },
            None => if args.line.is_some() {
                Err(SimilarError::HalfPlace)
            } else {
                Err(SimilarError::Neither)
            },
        },
    }
}

/// The least score of `similar`: the flag, else the plan's value.
pub fn similar_min_score(plan: &Plan, args: &SimilarArgs) -> (r: Score)
    ensures
        r == (match args.min_score {
            Some(s) => s,
            None => plan.find_similar_min_score,
        }),
{
    match args.min_score {
        Some(s) => s,
        None => plan.find_similar_min_score(),
    }
}

/// The totals of two reports add up; a path that was indexed again counts as one, with its chunks, and
/// a path that was removed as one.
pub proof fn law_tally(a: Seq<(String, ReindexOutcome)>, b: Seq<(String, ReindexOutcome)>)
    ensures
        tally(a + b).0 == tally(a).0 + tally(b).0,
        tally(a + b).1 == tally(a).1 + tally(b).1,
        tally(a + b).2 == tally(a).2 + tally(b).2,
        tally(a).0 + tally(a).1 == a.len(),
        a.len() == 1 ==> (a[0].1 matches ReindexOutcome::Reindexed { chunks } ==> tally(a) == (1nat, 0nat, chunks as nat)),
        a.len() == 1 ==> (a[0].1 is Removed ==> tally(a) == (0nat, 1nat, 0nat)),
    decreases b.len(), a.len(),
{
    if a.len() > 0 {
        law_tally(a.drop_last(), Seq::empty());
        if a.len() == 1 {
            assert(a.drop_last() =~= Seq::empty());
        }
    }
    if b.len() == 0 {
        assert(a + b =~= a);
    } else {
        law_tally(a, b.drop_last());
        assert((a + b).drop_last() =~= a + b.drop_last());
    }
}

proof fn lemma_no_dash(n: nat)
    ensures
        !text::decimal(n).contains('-'),
{
    text::lemma_decimal_value(n);
    if text::decimal(n).contains('-') {
        let i = choose|i: int| 0 <= i < text::decimal(n).len() && text::decimal(n)[i] == '-';
        assert('0' <= text::decimal(n)[i]);
    }
}

/// A place can be read back: behind the path and a colon stand the numerals of the first and the last
/// line, with a dash between them.
pub proof fn law_place_reads_back(path: Seq<char>, start: u64, end: u64)
    ensures
        ({
            let rest = place(path, start as nat, end as nat).skip(path.len() as int);
            &&& place(path, start as nat, end as nat).take(path.len() as int) == path
            &&& rest[0] == ':'
            &&& text::split(rest.skip(1), '-').len() == 2
            &&& text::number(text::split(rest.skip(1), '-')[0]) == Some(start)
            &&& text::number(text::split(rest.skip(1), '-')[1]) == Some(end)
        }),
{
    reveal_strlit(":");
    reveal_strlit("-");
    let a = text::decimal(start as nat);
    let b = text::decimal(end as nat);
    let all = place(path, start as nat, end as nat);
    let parts = seq![a, b];
    assert(parts.drop_last() =~= seq![a]);
    assert(text::joined(seq![a], seq!['-']) =~= a);
    assert(all.take(path.len() as int) =~= path);
    assert(all.skip(path.len() as int).skip(1) =~= text::joined(parts, seq!['-']));
    lemma_no_dash(start as nat);
    lemma_no_dash(end as nat);
    text::law_split_joined(parts, '-');
    text::law_numerals_read_back(start);
    text::law_numerals_read_back(end);
}

/// What became of a path can be told from its line: a removed one begins with `  - ` and ends with its
/// reason, and one that was indexed again begins with `  + ` and holds the number of its chunks.
pub proof fn law_outcome_line(path: String, outcome: ReindexOutcome)
    ensures
        outcome matches ReindexOutcome::Removed { reason } ==> outcome_line((path, outcome)) == "  - "@ + path@
            + " ("@ + reason@ + ")"@,
        outcome matches ReindexOutcome::Reindexed { chunks } ==> outcome_line((path, outcome)) == "  + "@ + path@
            + " ("@ + text::decimal(chunks as nat) + " chunks)"@,
{
}

} // verus!
