//! What git says of the working tree: the commit, whether it is dirty, and what changed.

use crate::text;
use vstd::prelude::*;

verus! {

/// The commit and the state of the working tree.
#[derive(Clone, Debug)]
pub struct GitContext {
    /// The abbreviated commit. `None` outside a repository.
    pub sha: Option<String>,
    /// Whether anything is uncommitted, or could not be found out.
    pub dirty: bool,
}

/// What a finished git command left behind.
#[derive(Debug)]
pub struct GitOutput {
    pub success: bool,
    pub stdout: String,
    pub stderr: String,
}

/// The commit that `git rev-parse --short HEAD` printed: none where it did not run, failed, or
/// printed nothing but white space.
pub open spec fn sha_of(rev_parse: Option<GitOutput>) -> Option<Seq<char>> {
    match rev_parse {
        Some(out) => if out.success && text::trimmed(out.stdout@).len() > 0 {
            Some(text::trimmed(out.stdout@))
        } else {
            None
        },
        None => None,
    }
}

/// Reads the commit from the output of `git rev-parse --short HEAD`.
pub fn head_sha(rev_parse: &Option<GitOutput>) -> (r: Option<String>)
    ensures
        match r {
            Some(s) => sha_of(*rev_parse) == Some(s@),
            None => sha_of(*rev_parse) is None,
        },
{
    match rev_parse {
        Some(out) => {
            if out.success {
                let s = text::trim(out.stdout.as_str());
                if text::chars_of(s.as_str()).len() == 0 {
                    None
                } else {
                    Some(s)
                }
            } else {
                None
            }
        },
        None => None,
    }
}

/// Whether anything is uncommitted. `staged_clean` and `worktree_clean` tell whether
/// `git diff --quiet --cached` and `git diff --quiet` succeeded, `None` where one did not run.
/// What could not be found out counts as dirty.
pub fn is_dirty(staged_clean: Option<bool>, worktree_clean: Option<bool>) -> (r: bool)
    ensures
        r == !(staged_clean == Some(true) && worktree_clean == Some(true)),
{
    let staged = match staged_clean {
        Some(clean) => !clean,
        None => true,
    };
    if staged {
        return true;
    }
    match worktree_clean {
        Some(clean) => !clean,
        None => true,
    }
}

/// The git context that the outcomes of the three commands amount to.
pub fn capture(
    rev_parse: &Option<GitOutput>,
    staged_clean: Option<bool>,
    worktree_clean: Option<bool>,
) -> (r: GitContext)
    ensures
        match r.sha {
            Some(s) => sha_of(*rev_parse) == Some(s@),
            None => sha_of(*rev_parse) is None,
        },
        r.dirty == !(staged_clean == Some(true) && worktree_clean == Some(true)),
{
    GitContext { sha: head_sha(rev_parse), dirty: is_dirty(staged_clean, worktree_clean) }
}

/// Where the changed files come from.
#[derive(Debug)]
pub enum ChangedFiles {
    /// They were given.
    Explicit(Vec<String>),
    /// Git is to be run with these arguments.
    Diff(Vec<String>),
}

/// The arguments with which git lists the changed files.
pub open spec fn diff_args(since: Option<Seq<char>>, staged: bool) -> Seq<Seq<char>> {
    let base = seq!["diff"@, "--name-only"@];
    if staged {
        base.push("--cached"@)
    } else {
        match since {
            Some(s) => base.push(s),
            None => base,
        }
    }
}

/// Where the changed files come from: the given list where it holds any, else a diff of what is
/// staged, against `since`, or of the working tree.
pub fn changed_files(since: Option<&str>, staged: bool, explicit: &Vec<String>) -> (r: ChangedFiles)
    ensures
        explicit@.len() > 0 ==> (r matches ChangedFiles::Explicit(files) && files@ == explicit@),
        explicit@.len() == 0 ==> (r matches ChangedFiles::Diff(args) && text::views(args@) == diff_args(
            match since {
                Some(s) => Some(s@),
                None => None,
            },
            staged,
        )),
{
    if explicit.len() > 0 {
        return ChangedFiles::Explicit(copy_list(explicit));
    }
    let mut args: Vec<String> = Vec::new();
    args.push("diff".to_string());
    args.push("--name-only".to_string());
    if staged {
        args.push("--cached".to_string());
    } else if let Some(s) = since {
        args.push(s.to_string());
    }
    assert(text::views(args@) =~= diff_args(
        match since {
            Some(s) => Some(s@),
            None => None,
        },
        staged,
    ));
    ChangedFiles::Diff(args)
}

/// A copy of a list of texts.
pub fn copy_list(list: &Vec<String>) -> (r: Vec<String>)
    ensures
        r@ == list@,
{
    let mut out: Vec<String> = Vec::new();
    let mut i: usize = 0;
    while i < list.len()
        invariant
            i <= list@.len(),
            out@ =~= list@.take(i as int),
        decreases list@.len() - i,
    {
        out.push(list[i].clone());
        i += 1;
    }
    assert(list@.take(i as int) =~= list@);
    out
}

/// Why the changed files could not be listed.
#[derive(Debug)]
pub enum GitError {
    /// Git did not run.
    NotRun,
    /// Git failed, and printed this.
    Failed(String),
}

impl GitError {
    /// The text of the error.
    pub open spec fn told(&self) -> Seq<char> {
        match self {
            GitError::NotRun => "failed to run `git diff` (is git on PATH?)"@,
            GitError::Failed(stderr) => "git diff failed: "@ + stderr@,
        }
    }

    /// What to tell the user.
    pub fn message(&self) -> (r: String)
        ensures
            r@ == self.told(),
    {
        match self {
            GitError::NotRun => "failed to run `git diff` (is git on PATH?)".to_string(),
            GitError::Failed(stderr) => "git diff failed: ".to_string().concat(stderr.as_str()),
        }
    }
}

/// Reads the changed files from the outcome of the diff.
pub fn listed_files(diff: &Option<GitOutput>) -> (r: Result<Vec<String>, GitError>)
    ensures
        match *diff {
            Some(out) => if out.success {
                r matches Ok(files) && text::views(files@) == text::filled(text::lines(out.stdout@))
            } else {
                r matches Err(GitError::Failed(e)) && e@ == text::trimmed(out.stderr@)
            },
            None => r matches Err(GitError::NotRun),
        },
{
    match diff {
        None => Err(GitError::NotRun),
        Some(out) => {
            if !out.success {
                return Err(GitError::Failed(text::trim(out.stderr.as_str())));
            }
            let lines = text::lines_of(out.stdout.as_str());
            Ok(text::fill(&lines))
        },
    }
}

/// No listed file is empty.
pub proof fn law_listed_files_named(stdout: Seq<char>, k: int)
    requires
        0 <= k < text::filled(text::lines(stdout)).len(),
    ensures
        text::filled(text::lines(stdout))[k].len() > 0,
{
    text::lemma_filled_hold_text(text::lines(stdout), k);
}

/// The changed files are the lines that the diff printed, in their order and without white space at
/// their ends. Lines of white space alone are no files.
pub proof fn law_listed_files(stdout: Seq<char>, files: Seq<String>) -> (at: Seq<int>)
    requires
        text::views(files) == text::filled(text::lines(stdout)),
    ensures
        crate::lists::are_places(at, text::lines(stdout).len() as int),
        at.len() == files.len(),
        forall|k: int| 0 <= k < at.len() ==> (#[trigger] files[k])@ == text::trimmed(text::lines(stdout)[at[k]]),
        forall|i: int|
            0 <= i < text::lines(stdout).len() ==> (#[trigger] at.contains(i) <==> exists|j: int|
                0 <= j < text::lines(stdout)[i].len() && !text::white_space(#[trigger] text::lines(stdout)[i][j])),
{
    let at = text::law_filled(text::lines(stdout));
    assert(text::views(files).len() == files.len());
    assert forall|k: int| 0 <= k < at.len() implies (#[trigger] files[k])@ == text::trimmed(
        text::lines(stdout)[at[k]],
    ) by {
        assert(text::views(files)[k] == files[k]@);
    }
    at
}

/// The diff is asked for names alone. What is staged is compared where that is asked for, whatever
/// revision is given; else the revision, where one is given, comes last.
pub proof fn law_diff_arguments(since: Option<Seq<char>>, staged: bool)
    ensures
        diff_args(since, staged)[0] == "diff"@,
        diff_args(since, staged)[1] == "--name-only"@,
        diff_args(since, staged).len() == 3 <==> staged || since is Some,
        diff_args(since, staged).len() == 2 <==> !staged && since is None,
        staged ==> diff_args(since, staged)[2] == "--cached"@,
        !staged && since is Some ==> diff_args(since, staged)[2] == since->0,
{
}

/// A commit is known exactly if the command ran, succeeded and printed more than white space, and it
/// is what was printed, without the white space around it.
pub proof fn law_commit_known(rev_parse: Option<GitOutput>)
    ensures
        sha_of(rev_parse) is Some <==> rev_parse is Some && rev_parse->0.success && exists|i: int|
            0 <= i < rev_parse->0.stdout@.len() && !text::white_space(#[trigger] rev_parse->0.stdout@[i]),
        sha_of(rev_parse) matches Some(s) ==> exists|from: int, to: int|
            0 <= from < to <= rev_parse->0.stdout@.len() && s == #[trigger] rev_parse->0.stdout@.subrange(from, to)
                && !text::white_space(s[0]) && !text::white_space(s.last()) && (forall|k: int|
                0 <= k < from || to <= k < rev_parse->0.stdout@.len() ==> text::white_space(
                    #[trigger] rev_parse->0.stdout@[k],
                )),
{
    if let Some(out) = rev_parse {
        let s = out.stdout@;
        text::law_trimmed_blank(s);
        let (from, to) = text::law_trimmed_range(s);
        if sha_of(rev_parse) is Some {
            let t = s.subrange(from, to);
            assert(t[0] == s[from] && t.last() == s[to - 1]);
            assert(sha_of(rev_parse)->0 == t);
        }
    }
}

} // verus!
