//! Indexing: the bulk run over a source tree and the refresh of changed files.

use crate::domain::{CodeChunk, IndexProgress, IndexReport, RefreshReport, ReindexOutcome};
use crate::git::GitContext;
use crate::search::copy_text;
use crate::text;
use vstd::prelude::*;

verus! {

/// The largest number of chunks handed to the store at once.
pub const UPSERT_BATCH: usize = 64;

/// A chunk as it is stored: with the commit and the state of the tree it comes from.
pub open spec fn stamped(c: CodeChunk, ctx: GitContext) -> CodeChunk {
    CodeChunk { commit_sha: ctx.sha, dirty: ctx.dirty, ..c }
}

/// Stamps every chunk with the git context.
pub fn stamp(chunks: &mut Vec<CodeChunk>, ctx: &GitContext)
    ensures
        final(chunks)@ == old(chunks)@.map_values(|c: CodeChunk| stamped(c, *ctx)),
{
    let n: usize = chunks.len();
    let mut i: usize = 0;
    while i < n
        invariant
            i <= n == chunks@.len() == old(chunks)@.len(),
            forall|k: int| 0 <= k < i ==> #[trigger] chunks@[k] == stamped(old(chunks)@[k], *ctx),
            forall|k: int| i <= k < n ==> #[trigger] chunks@[k] == old(chunks)@[k],
        decreases n - i,
    {
        chunks[i].commit_sha = copy_text(&ctx.sha);
        chunks[i].dirty = ctx.dirty;
        i += 1;
    }
    assert(chunks@ =~= old(chunks)@.map_values(|c: CodeChunk| stamped(c, *ctx)));
}

/// The chunks that are still to come, where the batch on top of the stack comes first.
pub open spec fn unstacked(pending: Seq<Vec<CodeChunk>>) -> Seq<CodeChunk>
    decreases pending.len(),
{
    if pending.len() == 0 {
        Seq::empty()
    } else {
        pending.last()@ + unstacked(pending.drop_last())
    }
}

/// How often the path changes from one chunk to the next, counting the first.
pub open spec fn crossings(chunks: Seq<CodeChunk>) -> nat
    decreases chunks.len(),
{
    if chunks.len() == 0 {
        0
    } else {
        let n = chunks.len();
        let before = crossings(chunks.drop_last());
        if n == 1 || chunks[n - 1].path@ != chunks[n - 2].path@ {
            before + 1
        } else {
            before
        }
    }
}

proof fn lemma_crossings_bounded(chunks: Seq<CodeChunk>)
    ensures
        crossings(chunks) <= chunks.len(),
    decreases chunks.len(),
{
    if chunks.len() > 0 {
        lemma_crossings_bounded(chunks.drop_last());
    }
}

/// Splits chunks into batches, the first on top of the stack.
fn batches(chunks: Vec<CodeChunk>) -> (r: Vec<Vec<CodeChunk>>)
    ensures
        unstacked(r@) == chunks@,
        forall|k: int| 0 <= k < r@.len() ==> 1 <= (#[trigger] r@[k])@.len() <= UPSERT_BATCH,
        forall|k: int| 0 < k < r@.len() ==> (#[trigger] r@[k])@.len() == UPSERT_BATCH,
{
    let ghost all = chunks@;
    let mut rest = chunks;
    let mut stack: Vec<Vec<CodeChunk>> = Vec::new();
    assert(rest@ + unstacked(stack@) =~= all);
    while rest.len() > 0
        invariant
            rest@ + unstacked(stack@) == all,
            stack@.len() > 0 ==> rest@.len() % (UPSERT_BATCH as nat) == 0,
            forall|k: int| 0 <= k < stack@.len() ==> 1 <= (#[trigger] stack@[k])@.len() <= UPSERT_BATCH,
            forall|k: int| 0 < k < stack@.len() ==> (#[trigger] stack@[k])@.len() == UPSERT_BATCH,
        decreases rest@.len(),
    {
        let cut: usize = (rest.len() - 1) / UPSERT_BATCH * UPSERT_BATCH;
        let ghost before = rest@;
        let ghost old_stack = stack@;
        let tail = rest.split_off(cut);
        proof {
            assert(before =~= rest@ + tail@);
        }
        stack.push(tail);
        proof {
            assert(stack@.drop_last() =~= old_stack);
            assert(rest@ + (tail@ + unstacked(old_stack)) =~= before + unstacked(old_stack));
        }
    }
    assert(rest@ + unstacked(stack@) =~= unstacked(stack@));
    stack
}

/// Where a bulk window stands. `End` holds the error that cut the work short.
pub enum Phase<E> {
    Begin,
    Body,
    End(Option<E>),
}

/// What the store is to do next.
pub enum IndexAction<'a> {
    BeginBulk,
    Upsert(&'a Vec<CodeChunk>),
    EndBulk,
}

/// A bulk run: all chunks of a source tree go to the store in batches, inside one bulk window.
pub struct IndexRun<E> {
    pub all: Ghost<Seq<CodeChunk>>,
    /// The batches still to come, the next on top.
    pub pending: Vec<Vec<CodeChunk>>,
    /// Chunks stored so far.
    pub done: usize,
    /// Files crossed into so far.
    pub files_done: usize,
    /// Path of the last chunk stored.
    pub last_path: Option<String>,
    pub files: usize,
    pub skipped: usize,
    pub total: usize,
    pub phase: Phase<E>,
}

/// What a run does after the store's reply.
pub enum IndexStep<E> {
    /// Go on, after reporting the progress there is.
    More(IndexRun<E>, Option<IndexProgress>),
    /// The run is over.
    Finished(Result<IndexReport, E>),
}

impl<E> IndexRun<E> {
    /// The invariant: what is stored and what is pending make up all chunks, in order, and every
    /// pending batch but the last one is full.
    pub open spec fn valid(&self) -> bool {
        &&& self.total == self.all@.len()
        &&& self.done <= self.total
        &&& unstacked(self.pending@) == self.all@.skip(self.done as int)
        &&& forall|k: int| 0 <= k < self.pending@.len() ==> 1 <= (#[trigger] self.pending@[k])@.len() <= UPSERT_BATCH
        &&& forall|k: int| 0 < k < self.pending@.len() ==> (#[trigger] self.pending@[k])@.len() == UPSERT_BATCH
        &&& self.files_done == crossings(self.all@.take(self.done as int))
        &&& match self.last_path {
            Some(p) => self.done > 0 && p@ == self.all@[self.done - 1].path@,
            None => self.done == 0,
        }
        &&& self.phase is Body ==> self.pending@.len() > 0
        &&& self.phase matches Phase::End(None) ==> self.pending@.len() == 0
    }

    /// A run over the chunks of a tree: `files` files gave chunks and `skipped` did not.
    pub fn new(chunks: Vec<CodeChunk>, files: usize, skipped: usize, ctx: &GitContext) -> (r: IndexRun<E>)
        ensures
            r.valid(),
            r.phase is Begin,
            r.all@ == chunks@.map_values(|c: CodeChunk| stamped(c, *ctx)),
            r.done == 0,
            r.files == files,
            r.skipped == skipped,
    {
        let mut chunks = chunks;
        stamp(&mut chunks, ctx);
        let ghost all = chunks@;
        let total: usize = chunks.len();
        let pending = batches(chunks);
        assert(all.skip(0) =~= all);
        assert(all.take(0) =~= Seq::<CodeChunk>::empty());
        IndexRun {
            all: Ghost(all),
            pending,
            done: 0,
            files_done: 0,
            last_path: None,
            files,
            skipped,
            total,
            phase: Phase::Begin,
        }
    }

    /// What the store is to do next.
    pub fn action(&self) -> (r: IndexAction<'_>)
        requires
            self.valid(),
        ensures
            match self.phase {
                Phase::Begin => r is BeginBulk,
                Phase::Body => {
                    &&& r matches IndexAction::Upsert(b)
                    &&& *b == self.pending@.last()
                    &&& b@ == self.all@.subrange(self.done as int, self.done + b@.len())
                    &&& b@.len() == if self.total - self.done < UPSERT_BATCH {
                        self.total - self.done
                    } else {
                        UPSERT_BATCH as int
                    }
                },
                Phase::End(_) => r is EndBulk,
            },
    {
        match &self.phase {
            Phase::Begin => IndexAction::BeginBulk,
            Phase::Body => {
                let b = &self.pending[self.pending.len() - 1];
                assert(self.all@.skip(self.done as int).take(b@.len() as int) =~= b@);
                assert(b@ =~= self.all@.subrange(self.done as int, self.done + b@.len()));
                proof {
                    assert(unstacked(self.pending@).len() == b@.len() + unstacked(self.pending@.drop_last()).len());
                    if self.pending@.len() == 1 {
                        assert(unstacked(self.pending@.drop_last()).len() == 0);
                    }
                }
                IndexAction::Upsert(b)
            },
            Phase::End(_) => IndexAction::EndBulk,
        }
    }

    /// Whether `next` differs from `self` in its phase alone.
    pub open spec fn same_work(&self, next: IndexRun<E>) -> bool {
        &&& next.all@ == self.all@
        &&& next.pending == self.pending
        &&& next.done == self.done
        &&& next.files_done == self.files_done
        &&& next.last_path == self.last_path
        &&& next.files == self.files
        &&& next.skipped == self.skipped
        &&& next.total == self.total
    }

    /// Whether `next` has the batch on top of the stack stored.
    pub open spec fn batch_stored(&self, next: IndexRun<E>) -> bool {
        &&& next.all@ == self.all@
        &&& next.pending@ == self.pending@.drop_last()
        &&& next.done == self.done + self.pending@.last()@.len()
        &&& next.files == self.files
        &&& next.skipped == self.skipped
        &&& next.total == self.total
    }

    /// What a run does after a reply: an error that opens the window ends the run; one inside it
    /// closes the window and is what the run ends with, whatever closing gives.
    pub open spec fn steps(self, reply: Result<(), E>, out: IndexStep<E>) -> bool {
        match self.phase {
            Phase::Begin => match reply {
                Err(e) => out == IndexStep::<E>::Finished(Err(e)),
                Ok(_) => {
                    &&& out matches IndexStep::More(next, p)
                    &&& p is None
                    &&& self.same_work(next)
                    &&& next.phase == if self.pending@.len() == 0 {
                        Phase::<E>::End(None)
                    } else {
                        Phase::Body
                    }
                },
            },
            Phase::Body => match reply {
                Err(e) => {
                    &&& out matches IndexStep::More(next, p)
                    &&& p is None
                    &&& self.same_work(next)
                    &&& next.phase == Phase::End(Some(e))
                },
                Ok(_) => {
                    &&& out matches IndexStep::More(next, Some(p))
                    &&& self.batch_stored(next)
                    &&& next.phase == if next.pending@.len() == 0 {
                        Phase::<E>::End(None)
                    } else {
                        Phase::Body
                    }
                    &&& p.files_done == crossings(self.all@.take(next.done as int))
                    &&& p.files_total == self.files
                    &&& p.chunks_done == next.done
                    &&& p.chunks_total == self.total
                    &&& p.path@ == self.all@[next.done - 1].path@
                },
            },
            Phase::End(Some(e)) => out == IndexStep::<E>::Finished(Err(e)),
            Phase::End(None) => match reply {
                Err(e) => out == IndexStep::<E>::Finished(Err(e)),
                Ok(_) => {
                    &&& out matches IndexStep::Finished(Ok(report))
                    &&& report.chunks == self.total
                    &&& report.files == self.files
                    &&& report.skipped == self.skipped
                },
            },
        }
    }

    /// Takes in the store's reply to the action.
    pub fn step(self, reply: Result<(), E>) -> (out: IndexStep<E>)
        requires
            self.valid(),
        ensures
            self.steps(reply, out),
            out matches IndexStep::More(next, _) ==> next.valid(),
    {
        match self.phase {
            Phase::Begin => match reply {
                Err(e) => IndexStep::Finished(Err(e)),
                Ok(_) => {
                    let phase = if self.pending.len() == 0 {
                        Phase::End(None)
                    } else {
                        Phase::Body
                    };
                    IndexStep::More(IndexRun { phase, ..self }, None)
                },
            },
            Phase::Body => match reply {
                Err(e) => IndexStep::More(IndexRun { phase: Phase::End(Some(e)), ..self }, None),
                Ok(_) => IndexRun { phase: Phase::Body, ..self }.stored(),
            },
            Phase::End(Some(e)) => IndexStep::Finished(Err(e)),
            Phase::End(None) => match reply {
                Err(e) => IndexStep::Finished(Err(e)),
                Ok(_) => IndexStep::Finished(
                    Ok(IndexReport { chunks: self.total, files: self.files, skipped: self.skipped }),
                ),
            },
        }
    }

    /// Goes on after the batch on top of the stack is stored.
    fn stored(self) -> (out: IndexStep<E>)
        requires
            self.valid(),
            self.phase is Body,
        ensures
            self.steps(Ok(()), out),
            out matches IndexStep::More(next, _) ==> next.valid(),
    {
        let mut run = self;
        let ghost all = run.all@;
        let ghost start = run.done as int;
        let n: usize = run.pending[run.pending.len() - 1].len();
        let ghost batch = run.pending@.last()@;
        let ghost under = unstacked(run.pending@.drop_last());
        proof {
            assert(all.skip(start).len() == batch.len() + under.len());
            assert(batch =~= all.subrange(start, start + n)) by {
                assert(all.skip(start).take(n as int) =~= batch);
            }
            assert(all.skip(start + n) =~= under) by {
                assert(all.skip(start).skip(n as int) =~= under);
            }
        }
        let mut files_done: usize = run.files_done;
        let mut last_path: Option<String> = copy_text(&run.last_path);
        let mut i: usize = 0;
        while i < n
            invariant
                i <= n,
                run.pending@.len() > 0,
                n == run.pending@.last()@.len(),
                batch == run.pending@.last()@,
                start + n <= all.len(),
                batch == all.subrange(start, start + n),
                all.len() <= usize::MAX,
                0 <= start,
                files_done == crossings(all.take(start + i)),
                match last_path {
                    Some(p) => start + i > 0 && p@ == all[start + i - 1].path@,
                    None => start + i == 0,
                },
            decreases n - i,
        {
            let c = &run.pending[run.pending.len() - 1][i];
            proof {
                assert(*c == all[start + i]);
                assert(all.take(start + i + 1).drop_last() =~= all.take(start + i));
                lemma_crossings_bounded(all.take(start + i + 1));
            }
            let same = match &last_path {
                Some(p) => text::same(p.as_str(), c.path.as_str()),
                None => false,
            };
            if !same {
                files_done += 1;
                last_path = Some(c.path.clone());
            }
            i += 1;
        }
        let path: String = match &last_path {
            Some(p) => p.clone(),
            None => String::new(),
        };
        run.pending.pop();
        run.done = run.done + n;
        run.files_done = files_done;
        run.last_path = last_path;
        let done: usize = run.done;
        run.phase = if run.pending.len() == 0 {
            Phase::End(None)
        } else {
            Phase::Body
        };
        let progress = IndexProgress {
            files_done,
            files_total: run.files,
            chunks_done: done,
            chunks_total: run.total,
            path,
        };
        IndexStep::More(run, Some(progress))
    }
}

/// A run that opened its bulk window ends only after closing it: the reply that ends a run answers
/// the opening, and is an error, or the closing.
pub proof fn law_window_closed<E>(run: IndexRun<E>, reply: Result<(), E>, r: Result<IndexReport, E>)
    requires
        run.steps(reply, IndexStep::Finished(r)),
    ensures
        (run.phase is Begin && reply is Err) || run.phase is End,
{
}

/// Closing is the last thing a run does.
pub proof fn law_window_closed_once<E>(run: IndexRun<E>, reply: Result<(), E>, out: IndexStep<E>)
    requires
        run.phase is End,
        run.steps(reply, out),
    ensures
        out is Finished,
{
}

/// A run that goes on never opens a second window.
pub proof fn law_window_opened_once<E>(
    run: IndexRun<E>,
    reply: Result<(), E>,
    next: IndexRun<E>,
    p: Option<IndexProgress>,
)
    requires
        run.steps(reply, IndexStep::More(next, p)),
    ensures
        !(next.phase is Begin),
{
}

/// The first error is the one a run ends with, even where closing the window fails as well.
pub proof fn law_first_error_wins<E>(
    run: IndexRun<E>,
    e: E,
    next: IndexRun<E>,
    p: Option<IndexProgress>,
    closing: Result<(), E>,
    out: IndexStep<E>,
)
    requires
        run.phase is Body,
        run.steps(Err(e), IndexStep::More(next, p)),
        next.steps(closing, out),
    ensures
        out == IndexStep::<E>::Finished(Err(e)),
{
}

/// A run that ends well has stored every chunk.
pub proof fn law_success_stores_all<E>(run: IndexRun<E>, reply: Result<(), E>, report: IndexReport)
    requires
        run.valid(),
        run.steps(reply, IndexStep::Finished(Ok(report))),
    ensures
        run.done == run.all@.len(),
        report.chunks == run.all@.len(),
{
    assert(unstacked(run.pending@).len() == 0);
}

/// Progress only grows, and its last report counts every chunk.
pub proof fn law_progress_reaches_total<E>(
    run: IndexRun<E>,
    reply: Result<(), E>,
    next: IndexRun<E>,
    p: IndexProgress,
)
    requires
        run.valid(),
        next.valid(),
        run.steps(reply, IndexStep::More(next, Some(p))),
    ensures
        run.done < p.chunks_done <= p.chunks_total,
        next.phase matches Phase::End(None) ==> p.chunks_done == p.chunks_total,
{
    assert(1 <= run.pending@[run.pending@.len() - 1]@.len());
    if next.pending@.len() == 0 {
        assert(unstacked(next.pending@).len() == 0);
    }
}

/// Whether a run went through these states, in this order, and ended with `r`.
pub open spec fn ran<E>(
    runs: Seq<IndexRun<E>>,
    replies: Seq<Result<(), E>>,
    reports: Seq<Option<IndexProgress>>,
    r: Result<IndexReport, E>,
) -> bool {
    &&& runs.len() > 0
    &&& replies.len() == runs.len()
    &&& reports.len() == runs.len()
    &&& runs[0].phase is Begin
    &&& forall|k: int|
        0 <= k < runs.len() - 1 ==> #[trigger] runs[k].steps(replies[k], IndexStep::More(runs[k + 1], reports[k]))
    &&& runs.last().steps(replies.last(), IndexStep::Finished(r))
}

/// Over a whole run, the window is opened once, first; unless that fails, it is closed once, last,
/// and everything between stores a batch.
pub proof fn law_one_window<E>(
    runs: Seq<IndexRun<E>>,
    replies: Seq<Result<(), E>>,
    reports: Seq<Option<IndexProgress>>,
    r: Result<IndexReport, E>,
)
    requires
        ran(runs, replies, reports, r),
    ensures
        replies[0] is Err ==> runs.len() == 1,
        replies[0] is Ok ==> runs.len() > 1 && runs.last().phase is End,
        forall|k: int| 0 < k < runs.len() - 1 ==> (#[trigger] runs[k]).phase is Body,
{
    if runs.len() > 1 {
        let z: int = 0;
        assert(runs[z].steps(replies[z], IndexStep::More(runs[z + 1], reports[z])));
        assert forall|k: int| 0 < k < runs.len() - 1 implies (#[trigger] runs[k]).phase is Body by {
            assert(runs[k].steps(replies[k], IndexStep::More(runs[k + 1], reports[k])));
            assert(runs[k - 1].steps(replies[k - 1], IndexStep::More(runs[k - 1 + 1], reports[k - 1])));
        }
        let n = runs.len() as int;
        assert(runs[n - 2].steps(replies[n - 2], IndexStep::More(runs[n - 2 + 1], reports[n - 2])));
    }
}

/// Over a whole run, what fails first decides: once storing a batch fails, nothing but the closing of
/// the window follows, and that error is returned. A run succeeds exactly if nothing failed.
pub proof fn law_run_outcome<E>(
    runs: Seq<IndexRun<E>>,
    replies: Seq<Result<(), E>>,
    reports: Seq<Option<IndexProgress>>,
    r: Result<IndexReport, E>,
)
    requires
        ran(runs, replies, reports, r),
    ensures
        forall|k: int|
            0 <= k < runs.len() && (#[trigger] replies[k] is Err) && (forall|j: int| 0 <= j < k ==> replies[j] is Ok)
                ==> {
                &&& r is Err
                &&& r->Err_0 == replies[k]->Err_0
                &&& k == 0 || k >= runs.len() - 2
            },
        r is Ok <==> forall|k: int| 0 <= k < runs.len() ==> #[trigger] replies[k] is Ok,
{
    law_one_window(runs, replies, reports, r);
    let n = runs.len() as int;
    assert forall|k: int| 0 < k < n - 1 implies (#[trigger] replies[k] is Err ==> k == n - 2 && r is Err && r->Err_0
        == replies[k]->Err_0) by {
        assert(runs[k].phase is Body);
        assert(runs[k].steps(replies[k], IndexStep::More(runs[k + 1], reports[k])));
    }
    if n > 1 {
        assert(runs[n - 2].steps(replies[n - 2], IndexStep::More(runs[n - 2 + 1], reports[n - 2])));
        assert(n > 2 ==> runs[n - 2].phase is Body);
    }
}

/// What a path turned out to hold.
pub enum FileLoad {
    /// There is no file.
    Missing,
    /// The file is not to be indexed. `generated` tells whether it says that it was generated.
    Skipped { generated: bool },
    /// The chunks of the file.
    Chunks(Vec<CodeChunk>),
}

/// Where a refresh stands. The current path is the one after those already reported.
pub enum RefreshPhase<E> {
    Begin,
    /// The chunks stored for the current path are to go.
    Delete,
    /// The current path is to be read.
    Load,
    /// The fresh chunks of the current path are to be stored.
    Upsert(Vec<CodeChunk>),
    /// The window is to be closed. Holds the error that cut the refresh short.
    End(Option<E>),
}

/// What is to be done next.
pub enum RefreshAction<'a> {
    BeginBulk,
    /// Delete what is stored for this path.
    Delete(String),
    /// Read this path, whose chunks are stored under `key`.
    Load { path: &'a String, key: String },
    Upsert(&'a Vec<CodeChunk>),
    EndBulk,
}

/// What came of an action.
pub enum RefreshReply<E> {
    /// The store's reply.
    Stored(Result<(), E>),
    /// The state of the tree, and what the path holds.
    Loaded(GitContext, FileLoad),
}

/// A refresh: each path is deleted from the store, read again and stored again, inside one bulk
/// window.
pub struct RefreshRun<E> {
    pub paths: Vec<String>,
    /// Whether generated files are left out.
    pub skip_generated: bool,
    pub entries: Vec<(String, ReindexOutcome)>,
    pub phase: RefreshPhase<E>,
}

/// What a refresh does after a reply.
pub enum RefreshStep<E> {
    More(RefreshRun<E>),
    Finished(Result<RefreshReport, E>),
}

/// The reason given for a file that is not indexed.
pub open spec fn skip_reason(skip_generated: bool, generated: bool) -> Seq<char> {
    if skip_generated && generated {
        "removed: autogenerated"@
    } else {
        "removed"@
    }
}

impl<E> RefreshRun<E> {
    /// The invariant: entries name the paths done, in order, and the current path exists while work
    /// on it goes on.
    pub open spec fn valid(&self) -> bool {
        &&& self.entries@.len() <= self.paths@.len()
        &&& forall|k: int|
            0 <= k < self.entries@.len() ==> (#[trigger] self.entries@[k]).0@ == text::strip_here(self.paths@[k]@)
        &&& match self.phase {
            RefreshPhase::Begin => self.entries@.len() == 0,
            RefreshPhase::Delete => self.entries@.len() < self.paths@.len(),
            RefreshPhase::Load => self.entries@.len() < self.paths@.len(),
            RefreshPhase::Upsert(chunks) => self.entries@.len() < self.paths@.len() && chunks@.len() > 0,
            RefreshPhase::End(None) => self.entries@.len() == self.paths@.len(),
            RefreshPhase::End(Some(_)) => true,
        }
    }

    /// A refresh of these paths.
    pub fn new(paths: Vec<String>, skip_generated: bool) -> (r: RefreshRun<E>)
        ensures
            r.valid(),
            r.phase is Begin,
            r.paths == paths,
            r.skip_generated == skip_generated,
            r.entries@.len() == 0,
    {
        RefreshRun { paths, skip_generated, entries: Vec::new(), phase: RefreshPhase::Begin }
    }

    /// The current path.
    pub open spec fn current(&self) -> Seq<char> {
        self.paths@[self.entries@.len() as int]@
    }

    /// What is to be done next.
    pub fn action(&self) -> (r: RefreshAction<'_>)
        requires
            self.valid(),
        ensures
            match self.phase {
                RefreshPhase::Begin => r is BeginBulk,
                RefreshPhase::Delete => r matches RefreshAction::Delete(key) && key@ == text::strip_here(
                    self.current(),
                ),
                RefreshPhase::Load => r matches RefreshAction::Load { path, key } && path@ == self.current() && key@
                    == text::strip_here(self.current()),
                RefreshPhase::Upsert(chunks) => r matches RefreshAction::Upsert(c) && *c == chunks,
                RefreshPhase::End(_) => r is EndBulk,
            },
    {
        match &self.phase {
            RefreshPhase::Begin => RefreshAction::BeginBulk,
            RefreshPhase::Delete => RefreshAction::Delete(text::trim_here(self.paths[self.entries.len()].as_str())),
            RefreshPhase::Load => {
                let path = &self.paths[self.entries.len()];
                RefreshAction::Load { path, key: text::trim_here(path.as_str()) }
            },
            RefreshPhase::Upsert(chunks) => RefreshAction::Upsert(chunks),
            RefreshPhase::End(_) => RefreshAction::EndBulk,
        }
    }

    /// Whether `next` has the same paths and entries.
    pub open spec fn same_work(&self, next: RefreshRun<E>) -> bool {
        &&& next.paths == self.paths
        &&& next.skip_generated == self.skip_generated
        &&& next.entries@ == self.entries@
    }

    /// Whether `next` has one entry more, for the current path, and goes on with the next path or
    /// closes the window after the last.
    pub open spec fn reported(&self, next: RefreshRun<E>) -> bool {
        &&& next.paths == self.paths
        &&& next.skip_generated == self.skip_generated
        &&& next.entries@.len() == self.entries@.len() + 1
        &&& next.entries@.drop_last() == self.entries@
        &&& next.entries@.last().0@ == text::strip_here(self.current())
        &&& next.phase == if next.entries@.len() == self.paths@.len() {
            RefreshPhase::<E>::End(None)
        } else {
            RefreshPhase::Delete
        }
    }

    /// What a refresh does after a reply. A reply of the wrong kind changes nothing.
    pub open spec fn steps(self, reply: RefreshReply<E>, out: RefreshStep<E>) -> bool {
        match (self.phase, reply) {
            (RefreshPhase::Begin, RefreshReply::Stored(Err(e))) => out == RefreshStep::<E>::Finished(Err(e)),
            (RefreshPhase::Begin, RefreshReply::Stored(Ok(_))) => {
                &&& out matches RefreshStep::More(next)
                &&& self.same_work(next)
                &&& next.phase == if self.paths@.len() == 0 {
                    RefreshPhase::<E>::End(None)
                } else {
                    RefreshPhase::Delete
                }
            },
            (RefreshPhase::Delete, RefreshReply::Stored(Ok(_))) => {
                &&& out matches RefreshStep::More(next)
                &&& self.same_work(next)
                &&& next.phase == RefreshPhase::<E>::Load
            },
            (RefreshPhase::Delete, RefreshReply::Stored(Err(e))) => {
                &&& out matches RefreshStep::More(next)
                &&& self.same_work(next)
                &&& next.phase == RefreshPhase::End(Some(e))
            },
            (RefreshPhase::Load, RefreshReply::Loaded(ctx, FileLoad::Missing)) => {
                &&& out matches RefreshStep::More(next)
                &&& self.reported(next)
                &&& next.entries@.last().1 matches ReindexOutcome::Removed { reason }
                &&& reason@ == "removed"@
            },
            (RefreshPhase::Load, RefreshReply::Loaded(ctx, FileLoad::Skipped { generated })) => {
                &&& out matches RefreshStep::More(next)
                &&& self.reported(next)
                &&& next.entries@.last().1 matches ReindexOutcome::Removed { reason }
                &&& reason@ == skip_reason(self.skip_generated, generated)
            },
            (RefreshPhase::Load, RefreshReply::Loaded(ctx, FileLoad::Chunks(chunks))) => {
                &&& out matches RefreshStep::More(next)
                &&& if chunks@.len() == 0 {
                    &&& self.reported(next)
                    &&& next.entries@.last().1 matches ReindexOutcome::Removed { reason }
                    &&& reason@ == "removed: no indexable content"@
                } else {
                    &&& self.same_work(next)
                    &&& next.phase matches RefreshPhase::Upsert(fresh)
                    &&& fresh@ == chunks@.map_values(|c: CodeChunk| stamped(c, ctx))
                }
            },
            (RefreshPhase::Upsert(chunks), RefreshReply::Stored(Ok(_))) => {
                &&& out matches RefreshStep::More(next)
                &&& self.reported(next)
                &&& next.entries@.last().1 matches ReindexOutcome::Reindexed { chunks: n }
                &&& n == chunks@.len()
            },
            (RefreshPhase::Upsert(chunks), RefreshReply::Stored(Err(e))) => {
                &&& out matches RefreshStep::More(next)
                &&& self.same_work(next)
                &&& next.phase == RefreshPhase::End(Some(e))
            },
            (RefreshPhase::End(Some(e)), RefreshReply::Stored(_)) => out == RefreshStep::<E>::Finished(Err(e)),
            (RefreshPhase::End(None), RefreshReply::Stored(Err(e))) => out == RefreshStep::<E>::Finished(Err(e)),
            (RefreshPhase::End(None), RefreshReply::Stored(Ok(_))) => {
                &&& out matches RefreshStep::Finished(Ok(report))
                &&& report.entries@ == self.entries@
            },
            _ => out == RefreshStep::More(self),
        }
    }

    /// Reports the current path and goes on with the next.
    fn report(self, outcome: ReindexOutcome) -> (next: RefreshRun<E>)
        requires
            self.entries@.len() < self.paths@.len(),
            forall|k: int|
                0 <= k < self.entries@.len() ==> (#[trigger] self.entries@[k]).0@ == text::strip_here(
                    self.paths@[k]@,
                ),
        ensures
            next.valid(),
            self.reported(next),
            next.entries@.last().1 == outcome,
    {
        let mut run = self;
        let ghost before = run.entries@;
        let key = text::trim_here(run.paths[run.entries.len()].as_str());
        run.entries.push((key, outcome));
        assert(run.entries@.drop_last() =~= before);
        run.phase = if run.entries.len() == run.paths.len() {
            RefreshPhase::End(None)
        } else {
            RefreshPhase::Delete
        };
        run
    }

    /// Takes in what came of the action.
    pub fn step(self, reply: RefreshReply<E>) -> (out: RefreshStep<E>)
        requires
            self.valid(),
        ensures
            self.steps(reply, out),
            out matches RefreshStep::More(next) ==> next.valid(),
    {
        match reply {
            RefreshReply::Stored(Ok(_)) => match self.phase {
                RefreshPhase::Begin => {
                    let phase = if self.paths.len() == 0 {
                        RefreshPhase::End(None)
                    } else {
                        RefreshPhase::Delete
                    };
                    RefreshStep::More(RefreshRun { phase, ..self })
                },
                RefreshPhase::Delete => RefreshStep::More(RefreshRun { phase: RefreshPhase::Load, ..self }),
                RefreshPhase::Load => RefreshStep::More(self),
                RefreshPhase::Upsert(chunks) => {
                    let n: usize = chunks.len();
                    let run = RefreshRun { phase: RefreshPhase::Load, ..self };
                    RefreshStep::More(run.report(ReindexOutcome::Reindexed { chunks: n }))
                },
                RefreshPhase::End(Some(e)) => RefreshStep::Finished(Err(e)),
                RefreshPhase::End(None) => RefreshStep::Finished(Ok(RefreshReport { entries: self.entries })),
            },
            RefreshReply::Stored(Err(e)) => match self.phase {
                RefreshPhase::Begin => RefreshStep::Finished(Err(e)),
                RefreshPhase::Delete => RefreshStep::More(
                    RefreshRun { phase: RefreshPhase::End(Some(e)), ..self },
                ),
                RefreshPhase::Load => RefreshStep::More(self),
                RefreshPhase::Upsert(_) => RefreshStep::More(
                    RefreshRun { phase: RefreshPhase::End(Some(e)), ..self },
                ),
                RefreshPhase::End(Some(first)) => RefreshStep::Finished(Err(first)),
                RefreshPhase::End(None) => RefreshStep::Finished(Err(e)),
            },
            RefreshReply::Loaded(ctx, load) => match self.phase {
                RefreshPhase::Load => {
                    let run = RefreshRun { phase: RefreshPhase::Load, ..self };
                    match load {
                        FileLoad::Missing => RefreshStep::More(
                            run.report(ReindexOutcome::Removed { reason: "removed" }),
                        ),
                        FileLoad::Skipped { generated } => {
                            let reason = if run.skip_generated && generated {
                                "removed: autogenerated"
                            } else {
                                "removed"
                            };
                            RefreshStep::More(run.report(ReindexOutcome::Removed { reason }))
                        },
                        FileLoad::Chunks(chunks) => {
                            if chunks.len() == 0 {
                                RefreshStep::More(
                                    run.report(
                                        ReindexOutcome::Removed { reason: "removed: no indexable content" },
                                    ),
                                )
                            } else {
                                let mut fresh = chunks;
                                stamp(&mut fresh, &ctx);
                                RefreshStep::More(RefreshRun { phase: RefreshPhase::Upsert(fresh), ..run })
                            }
                        },
                    }
                },
                _ => RefreshStep::More(self),
            },
        }
    }
}

/// A refresh that opened its bulk window ends only after closing it.
pub proof fn law_refresh_window_closed<E>(run: RefreshRun<E>, reply: RefreshReply<E>, r: Result<RefreshReport, E>)
    requires
        run.steps(reply, RefreshStep::Finished(r)),
    ensures
        (run.phase is Begin && r is Err) || run.phase is End,
{
}

/// Nothing but the end follows the closing of a refresh's window, and the window is opened once.
pub proof fn law_refresh_window_once<E>(run: RefreshRun<E>, reply: RefreshReply<E>, next: RefreshRun<E>)
    requires
        run.steps(reply, RefreshStep::More(next)),
        reply is Stored,
    ensures
        !(run.phase is End),
        !(next.phase is Begin),
{
}

/// The first error is the one a refresh ends with, even where closing the window fails as well.
pub proof fn law_refresh_first_error_wins<E>(
    run: RefreshRun<E>,
    e: E,
    next: RefreshRun<E>,
    closing: Result<(), E>,
    out: RefreshStep<E>,
)
    requires
        run.phase is Delete || run.phase is Upsert,
        run.steps(RefreshReply::Stored(Err(e)), RefreshStep::More(next)),
        next.steps(RefreshReply::Stored(closing), out),
    ensures
        out == RefreshStep::<E>::Finished(Err(e)),
{
}

/// What is stored for a path goes before anything fresh of it is stored: an upsert follows only a
/// read, and a read only a delete of the same path.
pub proof fn law_delete_before_upsert<E>(run: RefreshRun<E>, reply: RefreshReply<E>, next: RefreshRun<E>)
    requires
        run.steps(reply, RefreshStep::More(next)),
        next != run,
    ensures
        next.phase is Upsert ==> run.phase is Load && next.entries@ == run.entries@ && next.paths == run.paths,
        next.phase is Load ==> run.phase is Delete && next.entries@ == run.entries@ && next.paths == run.paths,
{
}

/// A refresh that ends well reports every path, in order, without leading `./`.
pub proof fn law_refresh_reports_every_path<E>(run: RefreshRun<E>, reply: RefreshReply<E>, report: RefreshReport)
    requires
        run.valid(),
        run.steps(reply, RefreshStep::Finished(Ok(report))),
    ensures
        report.entries@.len() == run.paths@.len(),
        forall|k: int|
            0 <= k < report.entries@.len() ==> (#[trigger] report.entries@[k]).0@ == text::strip_here(
                run.paths@[k]@,
            ),
{
}

/// Whether a reply is one to what the refresh asked: a read is answered by what was read, and
/// everything else by the store.
pub open spec fn fits<E>(run: RefreshRun<E>, reply: RefreshReply<E>) -> bool {
    run.phase is Load <==> reply is Loaded
}

/// Whether the store failed.
pub open spec fn failed<E>(reply: RefreshReply<E>) -> bool {
    reply matches RefreshReply::Stored(Err(_))
}

/// Whether a refresh went through these states, in this order, and ended with `r`.
pub open spec fn refreshed<E>(
    runs: Seq<RefreshRun<E>>,
    replies: Seq<RefreshReply<E>>,
    r: Result<RefreshReport, E>,
) -> bool {
    &&& runs.len() > 0
    &&& replies.len() == runs.len()
    &&& runs[0].phase is Begin
    &&& forall|k: int| 0 <= k < runs.len() ==> (#[trigger] runs[k]).valid() && fits(runs[k], replies[k])
    &&& forall|k: int|
        0 <= k < runs.len() - 1 ==> #[trigger] runs[k].steps(replies[k], RefreshStep::More(runs[k + 1]))
    &&& runs.last().steps(replies.last(), RefreshStep::Finished(r))
}

/// Over a whole refresh, the window is opened once, first; unless that fails, it is closed once, last,
/// and everything between works on a path.
pub proof fn law_refresh_one_window<E>(
    runs: Seq<RefreshRun<E>>,
    replies: Seq<RefreshReply<E>>,
    r: Result<RefreshReport, E>,
)
    requires
        refreshed(runs, replies, r),
    ensures
        failed(replies[0]) ==> runs.len() == 1,
        !failed(replies[0]) ==> runs.len() > 1 && runs.last().phase is End,
        forall|k: int|
            0 < k < runs.len() - 1 ==> (#[trigger] runs[k]).phase is Delete || runs[k].phase is Load
                || runs[k].phase is Upsert,
{
    let n = runs.len() as int;
    assert(runs[0].valid() && runs[n - 1].valid());
    if n > 1 {
        let z: int = 0;
        assert(runs[z].steps(replies[z], RefreshStep::More(runs[z + 1])));
        assert forall|k: int| 0 < k < n - 1 implies (#[trigger] runs[k]).phase is Delete || runs[k].phase is Load
            || runs[k].phase is Upsert by {
            assert(runs[k].valid() && runs[k - 1].valid());
            assert(runs[k].steps(replies[k], RefreshStep::More(runs[k + 1])));
            assert(runs[k - 1].steps(replies[k - 1], RefreshStep::More(runs[k - 1 + 1])));
        }
        assert(runs[n - 2].valid());
        assert(runs[n - 2].steps(replies[n - 2], RefreshStep::More(runs[n - 2 + 1])));
    }
}

/// Over a whole refresh, what fails first decides: once the store fails for a path, no call but the
/// closing of the window follows, and that error is returned, whatever closing gives. A refresh
/// succeeds exactly if nothing failed.
pub proof fn law_refresh_outcome<E>(
    runs: Seq<RefreshRun<E>>,
    replies: Seq<RefreshReply<E>>,
    r: Result<RefreshReport, E>,
)
    requires
        refreshed(runs, replies, r),
    ensures
        forall|k: int|
            0 <= k < runs.len() && #[trigger] failed(replies[k]) && (forall|j: int|
                0 <= j < k ==> !failed(#[trigger] replies[j])) ==> {
                &&& r is Err
                &&& r->Err_0 == replies[k]->Stored_0->Err_0
                &&& k == 0 || k >= runs.len() - 2
            },
        r is Ok <==> forall|k: int| 0 <= k < runs.len() ==> !failed(#[trigger] replies[k]),
{
    law_refresh_one_window(runs, replies, r);
    let n = runs.len() as int;
    assert(runs[n - 1].valid());
    assert forall|k: int| 0 < k < n - 1 implies (#[trigger] failed(replies[k]) ==> k == n - 2 && r is Err && r->Err_0
        == replies[k]->Stored_0->Err_0) by {
        assert(runs[k].valid());
        assert(runs[k].steps(replies[k], RefreshStep::More(runs[k + 1])));
        if failed(replies[k]) {
            assert(runs[k + 1].phase is End);
            assert(runs[k + 1].valid());
            if k + 1 < n - 1 {
                assert(runs[k + 1].phase is Delete || runs[k + 1].phase is Load || runs[k + 1].phase is Upsert);
            }
        }
    }
    if n > 1 {
        assert(runs[n - 2].valid());
        assert(runs[n - 2].steps(replies[n - 2], RefreshStep::More(runs[n - 2 + 1])));
        assert(fits(runs[n - 1], replies[n - 1]));
    }
}

/// Whether a state of a refresh deletes what is stored for the path at `i`.
pub open spec fn deletes<E>(run: RefreshRun<E>, i: int) -> bool {
    run.phase is Delete && run.entries@.len() == i
}

/// Whether one of the first `n` states deletes what is stored for the path at `i`.
pub open spec fn deleted<E>(runs: Seq<RefreshRun<E>>, n: int, i: int) -> bool {
    exists|k: int| 0 <= k < n && #[trigger] deletes(runs[k], i)
}

proof fn lemma_refresh_so_far<E>(
    runs: Seq<RefreshRun<E>>,
    replies: Seq<RefreshReply<E>>,
    r: Result<RefreshReport, E>,
    n: int,
)
    requires
        refreshed(runs, replies, r),
        0 <= n < runs.len(),
    ensures
        runs[n].paths == runs[0].paths,
        runs[n].phase is Begin ==> n == 0,
        forall|i: int| 0 <= i < runs[n].entries@.len() ==> #[trigger] deleted(runs, n, i),
        runs[n].phase is Load || runs[n].phase is Upsert ==> deleted(runs, n, runs[n].entries@.len() as int),
        forall|k: int| 0 <= k < n && (#[trigger] runs[k]).phase is Delete ==> runs[k].entries@.len()
            < runs[n].entries@.len() || (runs[k].entries@.len() == runs[n].entries@.len() && !(runs[n].phase is Delete)),
    decreases n,
{
    if n > 0 {
        lemma_refresh_so_far(runs, replies, r, n - 1);
        let a = runs[n - 1];
        let b = runs[n];
        assert(runs[n - 1].valid() && fits(runs[n - 1], replies[n - 1]) && runs[n].valid());
        assert(runs[n - 1].steps(replies[n - 1], RefreshStep::More(runs[n - 1 + 1])));
        let at = a.entries@.len() as int;
        assert(a.phase is Delete ==> deletes(runs[n - 1], at));
        assert(a.phase is Begin ==> at == 0);
        assert forall|i: int| 0 <= i < b.entries@.len() implies #[trigger] deleted(runs, n, i) by {
            if i < at {
                assert(deleted(runs, n - 1, i));
                let k = choose|k: int| 0 <= k < n - 1 && #[trigger] deletes(runs[k], i);
                assert(deletes(runs[k], i));
            } else {
                assert(a.phase is Load || a.phase is Upsert);
                let k = choose|k: int| 0 <= k < n - 1 && #[trigger] deletes(runs[k], at);
                assert(deletes(runs[k], i));
            }
        }
        if b.phase is Load || b.phase is Upsert {
            if a.phase is Load || a.phase is Upsert {
                let k = choose|k: int| 0 <= k < n - 1 && #[trigger] deletes(runs[k], at);
                assert(deletes(runs[k], at));
            }
        }
    }
}

/// Over a whole refresh, the paths are worked on in order and each is deleted at most once. A refresh
/// that succeeds deleted what was stored for every path.
pub proof fn law_refresh_deletes_each_path_once<E>(
    runs: Seq<RefreshRun<E>>,
    replies: Seq<RefreshReply<E>>,
    r: Result<RefreshReport, E>,
)
    requires
        refreshed(runs, replies, r),
    ensures
        forall|k: int, m: int|
            0 <= k < m < runs.len() && (#[trigger] runs[k]).phase is Delete && (#[trigger] runs[m]).phase is Delete
                ==> runs[k].entries@.len() < runs[m].entries@.len(),
        r is Ok ==> forall|i: int|
            0 <= i < runs[0].paths@.len() ==> #[trigger] deleted(runs, runs.len() as int, i),
{
    assert forall|k: int, m: int|
        0 <= k < m < runs.len() && (#[trigger] runs[k]).phase is Delete && (#[trigger] runs[m]).phase is Delete implies
    runs[k].entries@.len() < runs[m].entries@.len() by {
        lemma_refresh_so_far(runs, replies, r, m);
    }
    let n = runs.len() - 1;
    lemma_refresh_so_far(runs, replies, r, n);
    if r is Ok {
        assert(runs[n].valid());
        assert forall|i: int| 0 <= i < runs[0].paths@.len() implies #[trigger] deleted(
            runs,
            runs.len() as int,
            i,
        ) by {
            assert(deleted(runs, n, i));
            let k = choose|k: int| 0 <= k < n && #[trigger] deletes(runs[k], i);
            assert(deletes(runs[k], i));
        }
    }
}

/// Stamping sets the commit and the dirty flag, and leaves everything else of a chunk as it is.
pub proof fn law_stamped(c: CodeChunk, ctx: GitContext)
    ensures
        stamped(c, ctx).commit_sha == ctx.sha,
        stamped(c, ctx).dirty == ctx.dirty,
        stamped(c, ctx).id == c.id,
        stamped(c, ctx).path == c.path,
        stamped(c, ctx).language == c.language,
        stamped(c, ctx).start_line == c.start_line,
        stamped(c, ctx).end_line == c.end_line,
        stamped(c, ctx).text == c.text,
        stamped(c, ctx).symbol == c.symbol,
        stamped(c, ctx).no_duplicate == c.no_duplicate,
{
}

/// The paths of some chunks.
pub open spec fn paths_of(chunks: Seq<CodeChunk>) -> Set<Seq<char>> {
    chunks.map_values(|c: CodeChunk| c.path@).to_set()
}

/// Where the chunks of each file follow one another, the files crossed into are the files there are.
pub proof fn law_crossings_count_files(chunks: Seq<CodeChunk>)
    requires
        forall|i: int, j: int, k: int|
            0 <= i <= j <= k < chunks.len() && (#[trigger] chunks[i]).path@ == (#[trigger] chunks[k]).path@ ==> (
            #[trigger] chunks[j]).path@ == chunks[i].path@,
    ensures
        paths_of(chunks).finite(),
        crossings(chunks) == paths_of(chunks).len(),
    decreases chunks.len(),
{
    let all = chunks.map_values(|c: CodeChunk| c.path@);
    if chunks.len() == 0 {
        assert(paths_of(chunks) =~= Set::empty());
    } else {
        let front = chunks.drop_last();
        let before = front.map_values(|c: CodeChunk| c.path@);
        let n = chunks.len() as int;
        let last = chunks[n - 1].path@;
        assert forall|i: int, j: int, k: int|
            0 <= i <= j <= k < front.len() && (#[trigger] front[i]).path@ == (#[trigger] front[k]).path@ implies (
        #[trigger] front[j]).path@ == front[i].path@ by {
            assert(chunks[i].path@ == chunks[k].path@);
            assert(chunks[j].path@ == chunks[i].path@);
        }
        law_crossings_count_files(front);
        assert(all =~= before.push(last));
        assert(paths_of(chunks) =~= paths_of(front).insert(last)) by {
            assert forall|p: Seq<char>| paths_of(chunks).contains(p) == paths_of(front).insert(last).contains(p) by {
                if before.contains(p) {
                    let i = choose|i: int| 0 <= i < before.len() && before[i] == p;
                    assert(all[i] == p);
                }
                if p == last {
                    assert(all[n - 1] == p);
                }
                if all.contains(p) {
                    let i = choose|i: int| 0 <= i < all.len() && all[i] == p;
                    if i < n - 1 {
                        assert(before[i] == p);
                    }
                }
            }
        }
        if n > 1 {
            assert(paths_of(front).contains(last) <==> chunks[n - 2].path@ == last) by {
                if before.contains(last) {
                    let i = choose|i: int| 0 <= i < before.len() && before[i] == last;
                    assert(chunks[i].path@ == chunks[n - 1].path@);
                    assert(chunks[n - 2].path@ == chunks[i].path@);
                }
                assert(before[n - 2] == chunks[n - 2].path@);
            }
        }
    }
}

/// A whole run that succeeds hands over every chunk once, in order: the batch of each state begins
/// where the one before ended, the first at the first chunk and the last one ending at the last, and
/// none is empty or holds more than 64 chunks.
pub proof fn law_run_stores_in_order<E>(
    runs: Seq<IndexRun<E>>,
    replies: Seq<Result<(), E>>,
    reports: Seq<Option<IndexProgress>>,
    report: IndexReport,
)
    requires
        ran(runs, replies, reports, Ok(report)),
        forall|k: int| 0 <= k < runs.len() ==> (#[trigger] runs[k]).valid(),
        runs[0].done == 0,
    ensures
        runs.len() >= 2,
        runs[1].done == 0,
        runs.last().done == runs[0].all@.len(),
        report.chunks == runs[0].all@.len(),
        report.files == runs[0].files,
        report.skipped == runs[0].skipped,
        forall|k: int|
            0 < k < runs.len() - 1 ==> {
                let batch = (#[trigger] runs[k]).pending@.last()@;
                &&& runs[k].phase is Body
                &&& 1 <= batch.len() <= 64
                &&& runs[k + 1].done == runs[k].done + batch.len()
                &&& batch == runs[0].all@.subrange(runs[k].done as int, runs[k + 1].done as int)
            },
{
    law_one_window(runs, replies, reports, Ok(report));
    law_run_outcome(runs, replies, reports, Ok(report));
    let n = runs.len() as int;
    let z: int = 0;
    assert(replies[0] is Ok);
    assert(runs[z].steps(replies[z], IndexStep::More(runs[z + 1], reports[z])));
    lemma_same_run(runs, replies, reports, report, n - 1);
    assert(runs[n - 1].valid());
    assert(unstacked(runs[n - 1].pending@).len() == 0);
    assert forall|k: int| 0 < k < n - 1 implies {
        let batch = (#[trigger] runs[k]).pending@.last()@;
        &&& runs[k].phase is Body
        &&& 1 <= batch.len() <= 64
        &&& runs[k + 1].done == runs[k].done + batch.len()
        &&& batch == runs[0].all@.subrange(runs[k].done as int, runs[k + 1].done as int)
    } by {
        lemma_same_run(runs, replies, reports, report, k);
        assert(runs[k].valid() && runs[k + 1].valid());
        assert(runs[k].steps(replies[k], IndexStep::More(runs[k + 1], reports[k])));
        assert(replies[k] is Ok);
        let pending = runs[k].pending@;
        let batch = pending.last()@;
        assert(1 <= pending[pending.len() - 1]@.len() <= UPSERT_BATCH);
        assert(batch =~= runs[k].all@.skip(runs[k].done as int).take(batch.len() as int));
        assert(batch =~= runs[0].all@.subrange(runs[k].done as int, runs[k + 1].done as int));
    }
}

proof fn lemma_same_run<E>(
    runs: Seq<IndexRun<E>>,
    replies: Seq<Result<(), E>>,
    reports: Seq<Option<IndexProgress>>,
    report: IndexReport,
    n: int,
)
    requires
        ran(runs, replies, reports, Ok(report)),
        0 <= n < runs.len(),
    ensures
        runs[n].all@ == runs[0].all@,
        runs[n].files == runs[0].files,
        runs[n].skipped == runs[0].skipped,
        runs[n].total == runs[0].total,
    decreases n,
{
    if n > 0 {
        lemma_same_run(runs, replies, reports, report, n - 1);
        assert(runs[n - 1].steps(replies[n - 1], IndexStep::More(runs[n - 1 + 1], reports[n - 1])));
    }
}

/// What a refresh reports of a path that it read: a file that is gone or left out was removed, with the
/// reason that fits, and one with chunks was stored again, with as many chunks as were read, each as it
/// was read but for the commit and the dirty flag.
pub open spec fn told_right<E>(
    skip_generated: bool,
    load: FileLoad,
    ctx: GitContext,
    next: RefreshPhase<E>,
    outcome: ReindexOutcome,
) -> bool {
    match load {
        FileLoad::Missing => outcome matches ReindexOutcome::Removed { reason } && reason@ == "removed"@,
        FileLoad::Skipped { generated } => {
            &&& outcome matches ReindexOutcome::Removed { reason }
            &&& skip_generated && generated ==> reason@ == "removed: autogenerated"@
            &&& !(skip_generated && generated) ==> reason@ == "removed"@
        },
        FileLoad::Chunks(read) => {
            &&& read@.len() == 0 ==> (outcome matches ReindexOutcome::Removed { reason } && reason@
                == "removed: no indexable content"@)
            &&& read@.len() > 0 ==> {
                &&& outcome matches ReindexOutcome::Reindexed { chunks }
                &&& chunks == read@.len()
                &&& next matches RefreshPhase::Upsert(fresh)
                &&& fresh@.len() == read@.len()
                &&& forall|c: int|
                    0 <= c < read@.len() ==> {
                        let x = #[trigger] fresh@[c];
                        let y = read@[c];
                        &&& x.id == y.id && x.path == y.path && x.language == y.language && x.text == y.text
                        &&& x.start_line == y.start_line && x.end_line == y.end_line && x.symbol == y.symbol
                        &&& x.no_duplicate == y.no_duplicate && x.commit_sha == ctx.sha && x.dirty == ctx.dirty
                    }
            }
        },
    }
}

/// Whether state `k` reads the path at `i`, and the outcome is the one that follows from what was read.
pub open spec fn read_at<E>(
    runs: Seq<RefreshRun<E>>,
    replies: Seq<RefreshReply<E>>,
    k: int,
    i: int,
    outcome: ReindexOutcome,
) -> bool {
    &&& 0 <= k < runs.len() - 1
    &&& runs[k].phase is Load
    &&& runs[k].entries@.len() == i
    &&& replies[k] matches RefreshReply::Loaded(ctx, load)
    &&& told_right(runs[0].skip_generated, load, ctx, runs[k + 1].phase, outcome)
}

/// Whether one of the first `n` states reads the path at `i`, with this outcome.
pub open spec fn was_read<E>(
    runs: Seq<RefreshRun<E>>,
    replies: Seq<RefreshReply<E>>,
    n: int,
    i: int,
    outcome: ReindexOutcome,
) -> bool {
    exists|k: int| k < n && #[trigger] read_at(runs, replies, k, i, outcome)
}

proof fn lemma_refresh_entries<E>(
    runs: Seq<RefreshRun<E>>,
    replies: Seq<RefreshReply<E>>,
    r: Result<RefreshReport, E>,
    n: int,
)
    requires
        refreshed(runs, replies, r),
        0 <= n < runs.len(),
    ensures
        runs[n].skip_generated == runs[0].skip_generated,
        forall|i: int|
            0 <= i < runs[n].entries@.len() ==> was_read(runs, replies, n, i, (#[trigger] runs[n].entries@[i]).1),
        runs[n].phase matches RefreshPhase::Upsert(fresh) ==> was_read(
            runs,
            replies,
            n,
            runs[n].entries@.len() as int,
            (ReindexOutcome::Reindexed { chunks: fresh.len() }),
        ),
    decreases n,
{
    assert(runs[0].valid());
    if n > 0 {
        lemma_refresh_entries(runs, replies, r, n - 1);
        let a = runs[n - 1];
        let b = runs[n];
        assert(runs[n - 1].valid() && fits(runs[n - 1], replies[n - 1]) && runs[n].valid());
        assert(runs[n - 1].steps(replies[n - 1], RefreshStep::More(runs[n - 1 + 1])));
        let at = a.entries@.len() as int;
        assert forall|i: int| 0 <= i < b.entries@.len() implies was_read(
            runs,
            replies,
            n,
            i,
            (#[trigger] b.entries@[i]).1,
        ) by {
            if i < at {
                assert(b.entries@[i] == a.entries@[i]) by {
                    if b.entries@.len() > at {
                        assert(b.entries@.drop_last()[i] == b.entries@[i]);
                    }
                }
                assert(was_read(runs, replies, n - 1, i, a.entries@[i].1));
                let k = choose|k: int| k < n - 1 && #[trigger] read_at(runs, replies, k, i, a.entries@[i].1);
                assert(read_at(runs, replies, k, i, b.entries@[i].1));
            } else {
                assert(i == at);
                assert(b.entries@[i] == b.entries@.last());
                if let RefreshPhase::Upsert(fresh) = a.phase {
                    let k = choose|k: int|
                        k < n - 1 && #[trigger] read_at(
                            runs,
                            replies,
                            k,
                            at,
                            (ReindexOutcome::Reindexed { chunks: fresh.len() }),
                        );
                    assert(read_at(runs, replies, k, i, b.entries@[i].1));
                } else {
                    assert(read_at(runs, replies, n - 1, i, b.entries@[i].1));
                }
            }
        }
        if let RefreshPhase::Upsert(fresh) = b.phase {
            assert(read_at(
                runs,
                replies,
                n - 1,
                b.entries@.len() as int,
                (ReindexOutcome::Reindexed { chunks: fresh.len() }),
            ));
        }
    }
}

/// Over a whole refresh that succeeds, the report says of each path what was read of it.
pub proof fn law_refresh_tells_what_was_read<E>(
    runs: Seq<RefreshRun<E>>,
    replies: Seq<RefreshReply<E>>,
    report: RefreshReport,
    i: int,
)
    requires
        refreshed(runs, replies, Ok(report)),
        0 <= i < report.entries@.len(),
    ensures
        report.entries@.len() == runs[0].paths@.len(),
        was_read(runs, replies, runs.len() as int, i, report.entries@[i].1),
{
    let n = runs.len() - 1;
    assert(runs[n].valid());
    lemma_refresh_so_far(runs, replies, Ok(report), n);
    lemma_refresh_entries(runs, replies, Ok(report), n);
    assert(runs[n].entries@[i] == report.entries@[i]);
    let k = choose|k: int| k < n && #[trigger] read_at(runs, replies, k, i, report.entries@[i].1);
    assert(read_at(runs, replies, k, i, report.entries@[i].1));
}

/// What is reported of a batch that was stored: how many chunks that makes of all of them, the files
/// crossed into of those there are, and the path of its last chunk.
pub proof fn law_progress_tells<E>(run: IndexRun<E>, reply: Result<(), E>, next: IndexRun<E>, p: IndexProgress)
    requires
        run.valid(),
        next.valid(),
        run.steps(reply, IndexStep::More(next, Some(p))),
    ensures
        run.phase is Body,
        reply is Ok,
        p.chunks_done == run.done + run.pending@.last()@.len(),
        p.chunks_total == run.all@.len(),
        p.files_total == run.files,
        p.files_done >= run.files_done,
        p.path@ == run.pending@.last()@.last().path@,
{
    let batch = run.pending@.last()@;
    assert(1 <= run.pending@[run.pending@.len() - 1]@.len());
    assert(unstacked(run.pending@)[batch.len() - 1] == batch.last());
    assert(run.all@.skip(run.done as int)[batch.len() - 1] == batch.last());
    lemma_crossings_grow(run.all@, run.done as int, next.done as int);
}

proof fn lemma_crossings_grow(chunks: Seq<CodeChunk>, a: int, b: int)
    requires
        0 <= a <= b <= chunks.len(),
    ensures
        crossings(chunks.take(a)) <= crossings(chunks.take(b)),
    decreases b - a,
{
    if a < b {
        lemma_crossings_grow(chunks, a, b - 1);
        assert(chunks.take(b).drop_last() =~= chunks.take(b - 1));
    }
}

} // verus!
