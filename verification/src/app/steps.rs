//! The steps of a command, in order, and what is still done after one of them failed.

use crate::cli::{Args, Cmd};
use crate::vectordbs::Access;
use vstd::prelude::*;

verus! {

/// A step of a command.
#[derive(Clone, Copy, Debug, PartialEq, Eq, Structural)]
pub enum Step {
    /// Write a starter config.
    Init,
    /// Install the latest release.
    Update,
    /// Find out the commit and whether the tree is dirty.
    CaptureGit,
    /// Resolve flags and config.
    BuildPlan,
    /// Refuse a chunker that is not built in.
    CheckChunker,
    /// Resolve flags and config for the server.
    BuildMcpPlan,
    /// Open the store. With `offer_rebuild`, a file with vectors of another size may be deleted first.
    Open { access: Access, offer_rebuild: bool },
    /// Create what the store needs.
    EnsureReady { recreate: bool },
    /// Delete the collection.
    Flush,
    /// Re-index the changed files.
    Sync,
    /// Index every source.
    Index,
    /// Run the query.
    Query,
    /// Print near-duplicates.
    Duplicates,
    /// Print neighbours.
    Similar,
    /// Serve the tools, over HTTP or over stdio.
    Serve { http: bool },
    /// Print what would be indexed.
    DryRun,
    /// Close the store and wait for its worker.
    Close,
    /// Report the time taken.
    Finish { dry_run: bool },
}

/// The steps that every command but `init` and `update` begins with.
pub open spec fn prelude_steps() -> Seq<Step> {
    seq![Step::CaptureGit, Step::BuildPlan, Step::CheckChunker]
}

/// Opens the store, does some work, closes it again and reports.
pub open spec fn around(access: Access, offer_rebuild: bool, work: Seq<Step>) -> Seq<Step> {
    prelude_steps() + seq![Step::Open { access, offer_rebuild }] + work + seq![
        Step::Close,
        Step::Finish { dry_run: false },
    ]
}

/// What a run without a subcommand does with the open store.
pub open spec fn index_work(recreate: bool, query_only: bool, query: bool) -> Seq<Step> {
    seq![Step::EnsureReady { recreate }] + (if query_only {
        Seq::<Step>::empty()
    } else {
        seq![Step::Index]
    }) + (if query {
        seq![Step::Query]
    } else {
        Seq::<Step>::empty()
    })
}

/// The steps of the server. It opens the store for writing only where it may write, and leaves the
/// store's worker to the end of the process.
pub open spec fn serve_steps(allow_write: bool, http: bool) -> Seq<Step> {
    prelude_steps() + seq![Step::BuildMcpPlan, Step::CheckChunker] + (if allow_write {
        seq![
            Step::Open { access: Access::ReadWrite, offer_rebuild: false },
            Step::EnsureReady { recreate: false },
        ]
    } else {
        seq![Step::Open { access: Access::ReadOnly, offer_rebuild: false }]
    }) + seq![Step::Serve { http }, Step::Finish { dry_run: false }]
}

/// The steps of a command line.
pub open spec fn steps_of(args: Args) -> Seq<Step> {
    match args.command {
        Some(Cmd::Init(_)) => seq![Step::Init],
        Some(Cmd::Update) => seq![Step::Update],
        Some(Cmd::Flush) => around(Access::ReadWrite, false, seq![Step::Flush]),
        Some(Cmd::Sync(_)) => around(
            Access::ReadWrite,
            false,
            seq![Step::EnsureReady { recreate: false }, Step::Sync],
        ),
        Some(Cmd::Mcp(m)) => serve_steps(m.allow_write, m.http is Some),
        Some(Cmd::Duplicates(_)) => around(Access::ReadOnly, false, seq![Step::Duplicates]),
        Some(Cmd::Similar(_)) => around(Access::ReadOnly, false, seq![Step::Similar]),
        None => if args.dry_run {
            prelude_steps() + seq![Step::DryRun, Step::Finish { dry_run: true }]
        } else {
            around(
                Access::ReadWrite,
                !args.query_only,
                index_work(args.recreate, args.query_only, args.query is Some),
            )
        },
    }
}

fn start_steps() -> (r: Vec<Step>)
    ensures
        r@ == prelude_steps(),
{
    let mut v: Vec<Step> = Vec::new();
    v.push(Step::CaptureGit);
    v.push(Step::BuildPlan);
    v.push(Step::CheckChunker);
    assert(v@ =~= prelude_steps());
    v
}

fn put_around(access: Access, offer_rebuild: bool, work: Vec<Step>) -> (r: Vec<Step>)
    ensures
        r@ == around(access, offer_rebuild, work@),
{
    let ghost inner = work@;
    let mut work = work;
    let mut v = start_steps();
    v.push(Step::Open { access, offer_rebuild });
    v.append(&mut work);
    v.push(Step::Close);
    v.push(Step::Finish { dry_run: false });
    assert(v@ =~= around(access, offer_rebuild, inner));
    v
}

/// The steps of a command line.
pub fn command_steps(args: &Args) -> (r: Vec<Step>)
    ensures
        r@ == steps_of(*args),
{
    let mut work: Vec<Step> = Vec::new();
    match &args.command {
        Some(Cmd::Init(_)) => {
            work.push(Step::Init);
            assert(work@ =~= steps_of(*args));
            work
        },
        Some(Cmd::Update) => {
            work.push(Step::Update);
            assert(work@ =~= steps_of(*args));
            work
        },
        Some(Cmd::Flush) => {
            work.push(Step::Flush);
            assert(work@ =~= seq![Step::Flush]);
            put_around(Access::ReadWrite, false, work)
        },
        Some(Cmd::Sync(_)) => {
            work.push(Step::EnsureReady { recreate: false });
            work.push(Step::Sync);
            assert(work@ =~= seq![Step::EnsureReady { recreate: false }, Step::Sync]);
            put_around(Access::ReadWrite, false, work)
        },
        Some(Cmd::Mcp(m)) => {
            let http = m.http.is_some();
            let mut v = start_steps();
            v.push(Step::BuildMcpPlan);
            v.push(Step::CheckChunker);
            if m.allow_write {
                v.push(Step::Open { access: Access::ReadWrite, offer_rebuild: false });
                v.push(Step::EnsureReady { recreate: false });
            } else {
                v.push(Step::Open { access: Access::ReadOnly, offer_rebuild: false });
            }
            v.push(Step::Serve { http });
            v.push(Step::Finish { dry_run: false });
            assert(v@ =~= serve_steps(m.allow_write, m.http is Some));
            v
        },
        Some(Cmd::Duplicates(_)) => {
            work.push(Step::Duplicates);
            assert(work@ =~= seq![Step::Duplicates]);
            put_around(Access::ReadOnly, false, work)
        },
        Some(Cmd::Similar(_)) => {
            work.push(Step::Similar);
            assert(work@ =~= seq![Step::Similar]);
            put_around(Access::ReadOnly, false, work)
        },
        None => {
            if args.dry_run {
                let mut v = start_steps();
                v.push(Step::DryRun);
                v.push(Step::Finish { dry_run: true });
                assert(v@ =~= steps_of(*args));
                return v;
            }
            work.push(Step::EnsureReady { recreate: args.recreate });
            if !args.query_only {
                work.push(Step::Index);
            }
            if args.query.is_some() {
                work.push(Step::Query);
            }
            assert(work@ =~= index_work(args.recreate, args.query_only, args.query is Some));
            put_around(Access::ReadWrite, !args.query_only, work)
        },
    }
}

/// A command under way. After the first failure only an open store is closed and a report that is
/// due is made.
pub struct CommandRun<E> {
    pub steps: Vec<Step>,
    /// The steps before this one are over.
    pub at: usize,
    /// Whether the store is open.
    pub open: bool,
    /// Whether the report is due.
    pub timed: bool,
    /// The first failure.
    pub failed: Option<E>,
}

/// Whether a step is still made.
pub open spec fn made(step: Step, open: bool, timed: bool, failed: bool) -> bool {
    ||| !failed
    ||| step is Close && open
    ||| step is Finish && timed
}

/// The first step from `at` on that is still made, or the number of steps.
pub open spec fn due(steps: Seq<Step>, at: int, open: bool, timed: bool, failed: bool) -> int
    decreases steps.len() - at,
{
    if at >= steps.len() || made(steps[at], open, timed, failed) {
        at
    } else {
        due(steps, at + 1, open, timed, failed)
    }
}

impl<E> CommandRun<E> {
    /// Where the next step stands.
    pub open spec fn position(&self) -> int {
        due(self.steps@, self.at as int, self.open, self.timed, self.failed is Some)
    }

    /// Whether the position is valid.
    pub open spec fn well_formed(&self) -> bool {
        self.at <= self.steps@.len()
    }

    /// Whether no step is left.
    pub open spec fn finished(&self) -> bool {
        self.position() >= self.steps@.len()
    }

    /// Begins a command.
    pub fn new(args: &Args) -> (r: CommandRun<E>)
        ensures
            r.well_formed(),
            r.steps@ == steps_of(*args),
            r.at == 0,
            !r.open,
            !r.timed,
            r.failed is None,
    {
        CommandRun { steps: command_steps(args), at: 0, open: false, timed: false, failed: None }
    }

    fn seek(&self) -> (r: usize)
        requires
            self.well_formed(),
        ensures
            r == self.position(),
            r <= self.steps@.len(),
    {
        let failed = self.failed.is_some();
        let mut k: usize = self.at;
        while k < self.steps.len()
            invariant
                k <= self.steps@.len(),
                failed == self.failed is Some,
                due(self.steps@, k as int, self.open, self.timed, failed) == self.position(),
            decreases self.steps@.len() - k,
        {
            let step = self.steps[k];
            let closing = matches!(step, Step::Close) && self.open;
            let reporting = matches!(step, Step::Finish { .. }) && self.timed;
            if !failed || closing || reporting {
                return k;
            }
            k += 1;
        }
        k
    }

    /// The next step, `None` where the command is over.
    pub fn action(&self) -> (r: Option<Step>)
        requires
            self.well_formed(),
        ensures
            r is None <==> self.finished(),
            r matches Some(step) ==> step == self.steps@[self.position()],
    {
        let k: usize = self.seek();
        if k < self.steps.len() {
            Some(self.steps[k])
        } else {
            None
        }
    }

    /// Takes the outcome of the step that was due.
    pub fn step(self, outcome: Result<(), E>) -> (r: CommandRun<E>)
        requires
            self.well_formed(),
            !self.finished(),
        ensures
            r.well_formed(),
            follows(self, outcome, r),
    {
        let k: usize = self.seek();
        let count: usize = self.steps.len();
        assert(k < count);
        let step = self.steps[k];
        let opening = matches!(step, Step::Open { .. });
        let closing = matches!(step, Step::Close);
        let planning = matches!(step, Step::BuildMcpPlan);
        let open = (self.open && !closing) || (opening && outcome.is_ok());
        let timed = self.timed || opening || planning || matches!(step, Step::DryRun);
        let failed = match self.failed {
            Some(e) => Some(e),
            None => match outcome {
                Ok(_) => None,
                Err(e) => Some(e),
            },
        };
        CommandRun { steps: self.steps, at: k + 1, open, timed, failed }
    }

    /// What the command returns: the first failure, where there was one.
    pub fn outcome(self) -> (r: Result<(), E>)
        requires
            self.finished(),
        ensures
            match self.failed {
                Some(e) => r == Err::<(), E>(e),
                None => r is Ok,
            },
    {
        match self.failed {
            Some(e) => Err(e),
            None => Ok(()),
        }
    }
}

/// Whether `b` is `a` after the step that was due came out so.
pub open spec fn follows<E>(a: CommandRun<E>, outcome: Result<(), E>, b: CommandRun<E>) -> bool {
    let step = a.steps@[a.position()];
    &&& b.steps == a.steps
    &&& b.at == a.position() + 1
    &&& b.open == ((a.open && !(step is Close)) || (step is Open && outcome is Ok))
    &&& b.timed == (a.timed || step is Open || step is BuildMcpPlan || step is DryRun)
    &&& b.failed == match a.failed {
        Some(e) => Some(e),
        None => match outcome {
            Ok(_) => None,
            Err(e) => Some(e),
        },
    }
}

/// Whether `runs` is a command from its first state on, each following from the one before.
pub open spec fn is_history<E>(args: Args, runs: Seq<CommandRun<E>>, outcomes: Seq<Result<(), E>>) -> bool {
    &&& runs.len() == outcomes.len() + 1
    &&& runs[0].steps@ == steps_of(args)
    &&& runs[0].at == 0
    &&& !runs[0].open
    &&& !runs[0].timed
    &&& runs[0].failed is None
    &&& forall|i: int|
        0 <= i < outcomes.len() ==> !runs[i].finished() && #[trigger] follows(runs[i], outcomes[i], runs[i + 1])
}

proof fn lemma_due(steps: Seq<Step>, at: int, open: bool, timed: bool, failed: bool, k: int)
    requires
        0 <= at <= k < steps.len(),
        made(steps[k], open, timed, failed),
    ensures
        at <= due(steps, at, open, timed, failed) <= k,
    decreases k - at,
{
    if at < k && !made(steps[at], open, timed, failed) {
        lemma_due(steps, at + 1, open, timed, failed, k);
    }
}

/// Whether the last two steps close the store and report.
spec fn ends_closed(steps: Seq<Step>) -> bool {
    &&& steps.len() >= 2
    &&& steps[steps.len() - 2] is Close
    &&& steps.last() is Finish
}

proof fn lemma_open_to_the_end<E>(args: Args, runs: Seq<CommandRun<E>>, outcomes: Seq<Result<(), E>>, n: int)
    requires
        is_history(args, runs, outcomes),
        ends_closed(steps_of(args)),
        0 <= n <= outcomes.len(),
    ensures
        runs[n].steps@ == steps_of(args),
        runs[n].open ==> runs[n].at <= steps_of(args).len() - 2,
    decreases n,
{
    if n > 0 {
        lemma_open_to_the_end(args, runs, outcomes, n - 1);
        let a = runs[n - 1];
        assert(follows(a, outcomes[n - 1], runs[n - 1 + 1]));
        let steps = steps_of(args);
        if a.open {
            lemma_due(steps, a.at as int, a.open, a.timed, a.failed is Some, steps.len() - 2);
        }
        lemma_due_in_range(steps, a.at as int, a.open, a.timed, a.failed is Some);
    }
}

proof fn lemma_due_in_range(steps: Seq<Step>, at: int, open: bool, timed: bool, failed: bool)
    requires
        0 <= at <= steps.len(),
    ensures
        at <= due(steps, at, open, timed, failed) <= steps.len(),
    decreases steps.len() - at,
{
    if at < steps.len() && !made(steps[at], open, timed, failed) {
        lemma_due_in_range(steps, at + 1, open, timed, failed);
    }
}

/// A store that was opened is closed again before the command is over, whatever failed in between.
/// Only the server leaves its store to the end of the process.
pub proof fn law_store_closed<E>(args: Args, runs: Seq<CommandRun<E>>, outcomes: Seq<Result<(), E>>)
    requires
        is_history(args, runs, outcomes),
        runs.last().finished(),
        !(args.command matches Some(Cmd::Mcp(_))),
    ensures
        !runs.last().open,
{
    let steps = steps_of(args);
    let opens = !(args.command matches Some(Cmd::Init(_))) && !(args.command matches Some(Cmd::Update)) && !(
    args.command is None && args.dry_run);
    if opens {
        assert(ends_closed(steps));
        lemma_open_to_the_end(args, runs, outcomes, outcomes.len() as int);
        let last = runs.last();
        if last.open {
            lemma_due(steps, last.at as int, last.open, last.timed, last.failed is Some, steps.len() - 2);
        }
    } else {
        lemma_never_open(args, runs, outcomes, outcomes.len() as int);
    }
}

proof fn lemma_never_open<E>(args: Args, runs: Seq<CommandRun<E>>, outcomes: Seq<Result<(), E>>, n: int)
    requires
        is_history(args, runs, outcomes),
        forall|k: int| 0 <= k < steps_of(args).len() ==> !(#[trigger] steps_of(args)[k] is Open),
        0 <= n <= outcomes.len(),
    ensures
        runs[n].steps@ == steps_of(args),
        runs[n].at <= steps_of(args).len(),
        !runs[n].open,
    decreases n,
{
    if n > 0 {
        lemma_never_open(args, runs, outcomes, n - 1);
        let a = runs[n - 1];
        assert(follows(a, outcomes[n - 1], runs[n - 1 + 1]));
        lemma_due_in_range(steps_of(args), a.at as int, a.open, a.timed, a.failed is Some);
    }
}

/// Once the timed part of a command has begun, its time is reported before the command is over: the
/// last step is the report, and it has been made.
pub proof fn law_time_reported<E>(args: Args, runs: Seq<CommandRun<E>>, outcomes: Seq<Result<(), E>>)
    requires
        is_history(args, runs, outcomes),
        runs.last().finished(),
        runs.last().timed,
    ensures
        steps_of(args).last() is Finish,
        runs.last().at == steps_of(args).len(),
{
    let steps = steps_of(args);
    lemma_timed(args, runs, outcomes, outcomes.len() as int);
    let last = runs.last();
    if last.at < steps.len() {
        lemma_due(steps, last.at as int, last.open, last.timed, last.failed is Some, steps.len() - 1);
    }
}

proof fn lemma_timed<E>(args: Args, runs: Seq<CommandRun<E>>, outcomes: Seq<Result<(), E>>, n: int)
    requires
        is_history(args, runs, outcomes),
        0 <= n <= outcomes.len(),
    ensures
        runs[n].steps@ == steps_of(args),
        runs[n].at <= steps_of(args).len(),
        runs[n].timed ==> steps_of(args).last() is Finish,
    decreases n,
{
    if n > 0 {
        lemma_timed(args, runs, outcomes, n - 1);
        let a = runs[n - 1];
        assert(follows(a, outcomes[n - 1], runs[n - 1 + 1]));
        lemma_due_in_range(steps_of(args), a.at as int, a.open, a.timed, a.failed is Some);
    }
}

/// The command returns the failure of the first step that failed, and succeeds where none did.
pub proof fn law_first_failure_returned<E>(args: Args, runs: Seq<CommandRun<E>>, outcomes: Seq<Result<(), E>>, n: int)
    requires
        is_history(args, runs, outcomes),
        0 <= n <= outcomes.len(),
    ensures
        runs[n].failed is None <==> (forall|i: int| 0 <= i < n ==> #[trigger] outcomes[i] is Ok),
        forall|i: int|
            0 <= i < n && (#[trigger] outcomes[i] is Err) && (forall|j: int| 0 <= j < i ==> #[trigger] outcomes[j] is Ok)
                ==> runs[n].failed == Some(outcomes[i]->Err_0),
    decreases n,
{
    if n > 0 {
        law_first_failure_returned(args, runs, outcomes, n - 1);
        assert(follows(runs[n - 1], outcomes[n - 1], runs[n - 1 + 1]));
    }
}

/// `init` and `update` touch neither config nor store.
pub proof fn law_init_needs_no_config(args: Args)
    requires
        args.command matches Some(Cmd::Init(_)) || args.command matches Some(Cmd::Update),
    ensures
        steps_of(args).len() == 1,
        steps_of(args)[0] is Init || steps_of(args)[0] is Update,
{
}

/// A run that only queries never indexes, and never offers to delete the index.
pub proof fn law_query_only_keeps_index(args: Args)
    requires
        args.command is None,
        args.query_only,
    ensures
        !steps_of(args).contains(Step::Index),
        !steps_of(args).contains(Step::Open { access: Access::ReadWrite, offer_rebuild: true }),
{
}

/// Whether a step changes what is stored.
pub open spec fn writes(step: Step) -> bool {
    step is EnsureReady || step is Flush || step is Sync || step is Index
}

/// A command that searches, and a server that may not write, open the store for reading only and make
/// no step that writes.
pub proof fn law_searches_only_read(args: Args, k: int)
    requires
        args.command matches Some(Cmd::Duplicates(_)) || args.command matches Some(Cmd::Similar(_)) || (
        args.command matches Some(Cmd::Mcp(m)) && !m.allow_write),
        0 <= k < steps_of(args).len(),
    ensures
        !writes(steps_of(args)[k]),
        steps_of(args)[k] matches Step::Open { access, offer_rebuild } ==> access == Access::ReadOnly,
{
}

/// A step that writes comes only after the store was opened for writing.
pub proof fn law_writers_open_for_writing(args: Args, k: int)
    requires
        0 <= k < steps_of(args).len(),
        writes(steps_of(args)[k]),
    ensures
        exists|j: int|
            0 <= j < k && {
                &&& #[trigger] steps_of(args)[j] matches Step::Open { access, offer_rebuild }
                &&& access == Access::ReadWrite
            },
{
    let steps = steps_of(args);
    if args.command matches Some(Cmd::Mcp(_)) {
        assert(steps[5] is Open);
    } else {
        assert(steps[3] is Open);
    }
}

proof fn lemma_contains_both(a: Seq<Step>, b: Seq<Step>, step: Step)
    ensures
        (a + b).contains(step) <==> a.contains(step) || b.contains(step),
{
    if a.contains(step) {
        let i = choose|i: int| 0 <= i < a.len() && a[i] == step;
        assert((a + b)[i] == step);
    }
    if b.contains(step) {
        let i = choose|i: int| 0 <= i < b.len() && b[i] == step;
        assert((a + b)[a.len() + i] == step);
    }
    if (a + b).contains(step) {
        let i = choose|i: int| 0 <= i < (a + b).len() && (a + b)[i] == step;
        if i < a.len() {
            assert(a[i] == step);
        } else {
            assert(b[i - a.len()] == step);
        }
    }
}

proof fn lemma_contains_one(a: Step, step: Step)
    ensures
        seq![a].contains(step) <==> step == a,
{
    assert(seq![a][0] == a);
}

proof fn lemma_contains_two(a: Step, b: Step, step: Step)
    ensures
        seq![a, b].contains(step) <==> step == a || step == b,
{
    let all = seq![a, b];
    assert(all[0] == a && all[1] == b);
}

/// Whether a step is one of those that say nothing of the work of a command.
spec fn framing(step: Step) -> bool {
    step is CaptureGit || step is BuildPlan || step is CheckChunker || step is Close || step is BuildMcpPlan
        || step is Finish || step is Open
}

proof fn lemma_prelude(step: Step)
    ensures
        prelude_steps().contains(step) ==> framing(step) && !(step is Open),
{
    if prelude_steps().contains(step) {
        let i = choose|i: int| 0 <= i < prelude_steps().len() && prelude_steps()[i] == step;
    }
}

proof fn lemma_around(access: Access, offer_rebuild: bool, work: Seq<Step>, step: Step)
    ensures
        !framing(step) ==> (around(access, offer_rebuild, work).contains(step) <==> work.contains(step)),
        step is Open && !work.contains(step) ==> (around(access, offer_rebuild, work).contains(step) <==> step == (
        Step::Open { access, offer_rebuild })),
{
    let open = seq![Step::Open { access, offer_rebuild }];
    let end = seq![Step::Close, Step::Finish { dry_run: false }];
    lemma_prelude(step);
    lemma_contains_one(Step::Open { access, offer_rebuild }, step);
    lemma_contains_two(Step::Close, Step::Finish { dry_run: false }, step);
    lemma_contains_both(prelude_steps(), open, step);
    lemma_contains_both(prelude_steps() + open, work, step);
    lemma_contains_both(prelude_steps() + open + work, end, step);
}

proof fn lemma_index_work(recreate: bool, query_only: bool, query: bool, step: Step)
    ensures
        index_work(recreate, query_only, query).contains(step) <==> (step == (Step::EnsureReady { recreate }) || (step
            is Index && !query_only) || (step is Query && query)),
{
    let ready = seq![Step::EnsureReady { recreate }];
    let index = if query_only {
        Seq::<Step>::empty()
    } else {
        seq![Step::Index]
    };
    let last = if query {
        seq![Step::Query]
    } else {
        Seq::<Step>::empty()
    };
    lemma_contains_one(Step::EnsureReady { recreate }, step);
    lemma_contains_one(Step::Index, step);
    lemma_contains_one(Step::Query, step);
    lemma_contains_both(ready, index, step);
    lemma_contains_both(ready + index, last, step);
}

proof fn lemma_serve_steps(allow_write: bool, http: bool, step: Step)
    ensures
        !framing(step) ==> (serve_steps(allow_write, http).contains(step) <==> (step == (Step::Serve { http }) || (
        allow_write && step == (Step::EnsureReady { recreate: false })))),
        step matches Step::Open { access, offer_rebuild } ==> (serve_steps(allow_write, http).contains(step) <==> (
        !offer_rebuild && (access == Access::ReadWrite <==> allow_write))),
{
    let plan = seq![Step::BuildMcpPlan, Step::CheckChunker];
    let write = Step::Open { access: Access::ReadWrite, offer_rebuild: false };
    let read = Step::Open { access: Access::ReadOnly, offer_rebuild: false };
    let ready = Step::EnsureReady { recreate: false };
    let open = if allow_write {
        seq![write, ready]
    } else {
        seq![read]
    };
    let end = seq![Step::Serve { http }, Step::Finish { dry_run: false }];
    lemma_prelude(step);
    lemma_contains_two(Step::BuildMcpPlan, Step::CheckChunker, step);
    lemma_contains_two(write, ready, step);
    lemma_contains_one(read, step);
    lemma_contains_two(Step::Serve { http }, Step::Finish { dry_run: false }, step);
    lemma_contains_both(prelude_steps(), plan, step);
    lemma_contains_both(prelude_steps() + plan, open, step);
    lemma_contains_both(prelude_steps() + plan + open, end, step);
}

/// Which steps a command makes, besides those that frame its work. Only `init` writes a starter config,
/// only `update` installs, only `flush` deletes the collection, only `sync` re-indexes changed files, and
/// so on. A run without a subcommand gets the store ready, made anew where that is asked for; it indexes
/// unless it only queries, and queries where a query is given; a dry run does neither. The store is
/// opened for reading by the searches and by a server that may not write, and for writing otherwise, and
/// a rebuild is offered only by a run that indexes.
pub proof fn law_command_work(args: Args, step: Step)
    requires
        !(step is CaptureGit || step is BuildPlan || step is CheckChunker || step is BuildMcpPlan || step is Close
            || step is Finish),
    ensures
        steps_of(args).contains(step) <==> match (args.command, step) {
            (Some(Cmd::Init(_)), Step::Init) => true,
            (Some(Cmd::Update), Step::Update) => true,
            (Some(Cmd::Flush), Step::Flush) => true,
            (Some(Cmd::Sync(_)), Step::Sync) => true,
            (Some(Cmd::Sync(_)), Step::EnsureReady { recreate }) => !recreate,
            (Some(Cmd::Duplicates(_)), Step::Duplicates) => true,
            (Some(Cmd::Similar(_)), Step::Similar) => true,
            (Some(Cmd::Mcp(m)), Step::Serve { http }) => http == m.http is Some,
            (Some(Cmd::Mcp(m)), Step::EnsureReady { recreate }) => m.allow_write && !recreate,
            (Some(Cmd::Mcp(m)), Step::Open { access, offer_rebuild }) => !offer_rebuild && (access
                == Access::ReadWrite <==> m.allow_write),
            (Some(Cmd::Flush), Step::Open { access, offer_rebuild }) => access == Access::ReadWrite && !offer_rebuild,
            (Some(Cmd::Sync(_)), Step::Open { access, offer_rebuild }) => access == Access::ReadWrite
                && !offer_rebuild,
            (Some(Cmd::Duplicates(_)), Step::Open { access, offer_rebuild }) => access == Access::ReadOnly
                && !offer_rebuild,
            (Some(Cmd::Similar(_)), Step::Open { access, offer_rebuild }) => access == Access::ReadOnly
                && !offer_rebuild,
            (None, Step::DryRun) => args.dry_run,
            (None, Step::Index) => !args.dry_run && !args.query_only,
            (None, Step::Query) => !args.dry_run && args.query is Some,
            (None, Step::EnsureReady { recreate }) => !args.dry_run && recreate == args.recreate,
            (None, Step::Open { access, offer_rebuild }) => !args.dry_run && access == Access::ReadWrite
                && offer_rebuild == !args.query_only,
            _ => false,
        },
{
    let ready = Step::EnsureReady { recreate: false };
    match args.command {
        Some(Cmd::Init(_)) => {
            lemma_contains_one(Step::Init, step);
        },
        Some(Cmd::Update) => {
            lemma_contains_one(Step::Update, step);
        },
        Some(Cmd::Flush) => {
            lemma_contains_one(Step::Flush, step);
            lemma_around(Access::ReadWrite, false, seq![Step::Flush], step);
        },
        Some(Cmd::Sync(_)) => {
            lemma_contains_two(ready, Step::Sync, step);
            lemma_around(Access::ReadWrite, false, seq![ready, Step::Sync], step);
        },
        Some(Cmd::Duplicates(_)) => {
            lemma_contains_one(Step::Duplicates, step);
            lemma_around(Access::ReadOnly, false, seq![Step::Duplicates], step);
        },
        Some(Cmd::Similar(_)) => {
            lemma_contains_one(Step::Similar, step);
            lemma_around(Access::ReadOnly, false, seq![Step::Similar], step);
        },
        Some(Cmd::Mcp(m)) => {
            lemma_serve_steps(m.allow_write, m.http is Some, step);
        },
        None => {
            if args.dry_run {
                lemma_prelude(step);
                lemma_contains_two(Step::DryRun, Step::Finish { dry_run: true }, step);
                lemma_contains_both(
                    prelude_steps(),
                    seq![Step::DryRun, Step::Finish { dry_run: true }],
                    step,
                );
            } else {
                let work = index_work(args.recreate, args.query_only, args.query is Some);
                lemma_index_work(args.recreate, args.query_only, args.query is Some, step);
                lemma_around(Access::ReadWrite, !args.query_only, work, step);
            }
        },
    }
}

/// Whether no step that follows a failure is made but the closing of an open store and a due report.
proof fn lemma_due_is_made(steps: Seq<Step>, at: int, open: bool, timed: bool, failed: bool)
    requires
        0 <= at <= steps.len(),
    ensures
        due(steps, at, open, timed, failed) < steps.len() ==> made(
            steps[due(steps, at, open, timed, failed)],
            open,
            timed,
            failed,
        ),
    decreases steps.len() - at,
{
    if at < steps.len() && !made(steps[at], open, timed, failed) {
        lemma_due_is_made(steps, at + 1, open, timed, failed);
    }
}

proof fn lemma_history<E>(args: Args, runs: Seq<CommandRun<E>>, outcomes: Seq<Result<(), E>>, n: int)
    requires
        is_history(args, runs, outcomes),
        0 <= n <= outcomes.len(),
    ensures
        runs[n].steps@ == steps_of(args),
        runs[n].at <= steps_of(args).len(),
        runs[n].failed is None ==> runs[n].at == n,
        runs[n].failed is None <==> forall|i: int| 0 <= i < n ==> #[trigger] outcomes[i] is Ok,
    decreases n,
{
    if n > 0 {
        lemma_history(args, runs, outcomes, n - 1);
        let a = runs[n - 1];
        assert(follows(runs[n - 1], outcomes[n - 1], runs[n - 1 + 1]));
        lemma_due_in_range(steps_of(args), a.at as int, a.open, a.timed, a.failed is Some);
    }
}

/// Until something fails, the steps of a command are made one after the other, none left out; a command
/// in which nothing fails makes all of them. After a failure nothing is made but the closing of the
/// store and the report.
pub proof fn law_steps_made<E>(args: Args, runs: Seq<CommandRun<E>>, outcomes: Seq<Result<(), E>>, n: int)
    requires
        is_history(args, runs, outcomes),
        0 <= n < outcomes.len(),
    ensures
        0 <= runs[n].position() < steps_of(args).len(),
        (forall|i: int| 0 <= i < n ==> #[trigger] outcomes[i] is Ok) ==> runs[n].position() == n,
        (exists|i: int| 0 <= i < n && #[trigger] outcomes[i] is Err) ==> {
            let step = steps_of(args)[runs[n].position()];
            (step is Close && runs[n].open) || step is Finish
        },
        runs.last().finished() && (forall|i: int| 0 <= i < outcomes.len() ==> #[trigger] outcomes[i] is Ok)
            ==> outcomes.len() == steps_of(args).len(),
{
    let a = runs[n];
    lemma_history(args, runs, outcomes, n);
    lemma_history(args, runs, outcomes, outcomes.len() as int);
    assert(follows(runs[n], outcomes[n], runs[n + 1]));
    lemma_due_in_range(steps_of(args), a.at as int, a.open, a.timed, a.failed is Some);
    lemma_due_is_made(steps_of(args), a.at as int, a.open, a.timed, a.failed is Some);
    if exists|i: int| 0 <= i < n && #[trigger] outcomes[i] is Err {
        let i = choose|i: int| 0 <= i < n && #[trigger] outcomes[i] is Err;
        assert(!(outcomes[i] is Ok));
    }
}

/// A store counts as open from the step that opened it on, until it is closed: it is open exactly if a
/// step before opened it and none has closed it since.
pub proof fn law_open_store<E>(args: Args, runs: Seq<CommandRun<E>>, outcomes: Seq<Result<(), E>>, n: int)
    requires
        is_history(args, runs, outcomes),
        0 <= n < outcomes.len(),
    ensures
        ({
            let step = steps_of(args)[runs[n].position()];
            &&& step is Open && outcomes[n] is Ok ==> runs[n + 1].open
            &&& step is Close ==> !runs[n + 1].open
            &&& !(step is Open) && !(step is Close) ==> runs[n + 1].open == runs[n].open
            &&& step is Open && outcomes[n] is Err ==> runs[n + 1].open == runs[n].open
        }),
{
    lemma_history(args, runs, outcomes, n);
    assert(follows(runs[n], outcomes[n], runs[n + 1]));
}

/// When a step is made, within the command it belongs to.
pub open spec fn stage(step: Step) -> int {
    match step {
        Step::Init => 0,
        Step::Update => 0,
        Step::CaptureGit => 1,
        Step::BuildPlan => 2,
        Step::CheckChunker => 3,
        Step::BuildMcpPlan => 4,
        Step::Open { .. } => 5,
        Step::EnsureReady { .. } => 6,
        Step::Flush => 7,
        Step::Sync => 7,
        Step::Index => 7,
        Step::DryRun => 7,
        Step::Duplicates => 7,
        Step::Similar => 7,
        Step::Serve { .. } => 7,
        Step::Query => 8,
        Step::Close => 9,
        Step::Finish { .. } => 10,
    }
}

/// The order of the steps: git, the plan and the chunker come first, then the store is opened and made
/// ready, then the work is done, a query last, and then the store is closed and the time reported. The
/// server resolves a plan of its own and checks its chunker before it opens the store.
pub proof fn law_steps_ordered(args: Args, i: int, j: int)
    requires
        0 <= i < j < steps_of(args).len(),
    ensures
        !(args.command matches Some(Cmd::Mcp(_))) ==> stage(steps_of(args)[i]) < stage(steps_of(args)[j]),
        args.command matches Some(Cmd::Mcp(_)) ==> stage(steps_of(args)[i]) < stage(steps_of(args)[j]) || j == 4,
        args.command matches Some(Cmd::Mcp(_)) ==> steps_of(args)[3] is BuildMcpPlan && steps_of(args)[4] is CheckChunker
            && steps_of(args)[5] is Open,
{
}

/// Every command but `init` and `update` begins by capturing git, resolving the plan and checking the
/// chunker, and ends with its report, which says whether it was a dry run; one that opens a store but
/// does not serve closes it directly before.
pub proof fn law_command_frame(args: Args)
    requires
        !(args.command matches Some(Cmd::Init(_))),
        !(args.command matches Some(Cmd::Update)),
    ensures
        steps_of(args).len() >= 5,
        steps_of(args)[0] is CaptureGit,
        steps_of(args)[1] is BuildPlan,
        steps_of(args)[2] is CheckChunker,
        steps_of(args).last() == (Step::Finish { dry_run: args.command is None && args.dry_run }),
        !(args.command matches Some(Cmd::Mcp(_))) && !(args.command is None && args.dry_run) ==> {
            &&& steps_of(args)[3] is Open
            &&& steps_of(args)[steps_of(args).len() - 2] is Close
        },
{
}

} // verus!
