//! Opening a store for indexing, where a file with vectors of another size may be deleted first.

use crate::app::report::{rebuild_question, wal_path};
use crate::vectordbs::duckdb::DimMismatch;
use crate::vectordbs::OpenError;
use vstd::prelude::*;

verus! {

/// Where the opening stands.
#[derive(Debug)]
pub enum OpenPhase {
    /// The store is to be opened.
    First,
    /// The user is to be asked whether the file may go.
    Ask(DimMismatch),
    /// The file is to be deleted.
    Delete(String),
    /// The store is to be opened again.
    Second,
}

/// An opening.
#[derive(Debug)]
pub struct OpenRun {
    /// Whether the user may be asked to have the file deleted.
    pub offer_rebuild: bool,
    pub phase: OpenPhase,
}

/// What is to be done next.
#[derive(Debug)]
pub enum OpenAction {
    Open,
    /// Ask this question.
    Ask(String),
    /// Delete the file, and the write-ahead file beside it where there is one.
    Delete { file: String, wal: String },
}

/// What came of it.
pub enum OpenReply<S> {
    Opened(Result<S, OpenError>),
    /// Whether the user said yes, or why there was no answer.
    Answered(Result<bool, String>),
    Deleted(Result<(), String>),
}

/// What follows.
pub enum OpenStep<S> {
    More(OpenRun),
    Done(S),
    Failed(OpenError),
}

impl OpenRun {
    /// Begins an opening.
    pub fn new(offer_rebuild: bool) -> (r: OpenRun)
        ensures
            r.offer_rebuild == offer_rebuild,
            r.phase is First,
    {
        OpenRun { offer_rebuild, phase: OpenPhase::First }
    }

    /// What is to be done next.
    pub fn action(&self) -> (r: OpenAction)
        ensures
            match self.phase {
                OpenPhase::First => r is Open,
                OpenPhase::Ask(m) => r matches OpenAction::Ask(q) && q@ == "The index at '"@ + m.duckdb_path@
                    + "' was built with a different embedding model (dimension mismatch). Delete it and re-index from scratch?"@,
                OpenPhase::Delete(path) => r matches OpenAction::Delete { file, wal } && file@ == path@ && wal@ == path@
                    + ".wal"@,
                OpenPhase::Second => r is Open,
            },
    {
        match &self.phase {
            OpenPhase::First => OpenAction::Open,
            OpenPhase::Ask(m) => OpenAction::Ask(rebuild_question(m.duckdb_path.as_str())),
            OpenPhase::Delete(path) => OpenAction::Delete { file: path.clone(), wal: wal_path(path.as_str()) },
            OpenPhase::Second => OpenAction::Open,
        }
    }

    /// What follows a reply. A store that opens is the result. A file with vectors of another size leads
    /// to the question, where it is offered; a yes has the file deleted and the store opened again; and
    /// every other failure is the result. A reply of the wrong kind changes nothing.
    pub open spec fn steps<S>(self, reply: OpenReply<S>, out: OpenStep<S>) -> bool {
        match (self.phase, reply) {
            (OpenPhase::First, OpenReply::Opened(Ok(s))) => out == OpenStep::Done(s),
            (OpenPhase::First, OpenReply::Opened(Err(OpenError::Mismatch(m)))) => if self.offer_rebuild {
                out == OpenStep::<S>::More(OpenRun { offer_rebuild: true, phase: OpenPhase::Ask(m) })
            } else {
                out == OpenStep::<S>::Failed(OpenError::Mismatch(m))
            },
            (OpenPhase::First, OpenReply::Opened(Err(e))) => out == OpenStep::<S>::Failed(e),
            (OpenPhase::Ask(m), OpenReply::Answered(Ok(yes))) => if yes {
                &&& out matches OpenStep::More(next)
                &&& next.offer_rebuild == self.offer_rebuild
                &&& next.phase == OpenPhase::Delete(m.duckdb_path)
            } else {
                out == OpenStep::<S>::Failed(OpenError::Mismatch(m))
            },
            (OpenPhase::Ask(m), OpenReply::Answered(Err(e))) => out == OpenStep::<S>::Failed(OpenError::Other(e)),
            (OpenPhase::Delete(_), OpenReply::Deleted(Ok(_))) => {
                &&& out matches OpenStep::More(next)
                &&& next.offer_rebuild == self.offer_rebuild
                &&& next.phase is Second
            },
            (OpenPhase::Delete(_), OpenReply::Deleted(Err(e))) => out == OpenStep::<S>::Failed(OpenError::Other(e)),
            (OpenPhase::Second, OpenReply::Opened(Ok(s))) => out == OpenStep::Done(s),
            (OpenPhase::Second, OpenReply::Opened(Err(e))) => out == OpenStep::<S>::Failed(e),
            _ => out == OpenStep::<S>::More(self),
        }
    }

    /// Takes a reply.
    pub fn step<S>(self, reply: OpenReply<S>) -> (out: OpenStep<S>)
        ensures
            self.steps(reply, out),
    {
        let offer_rebuild = self.offer_rebuild;
        match self.phase {
            OpenPhase::First => match reply {
                OpenReply::Opened(Ok(s)) => OpenStep::Done(s),
                OpenReply::Opened(Err(OpenError::Mismatch(m))) => if offer_rebuild {
                    OpenStep::More(OpenRun { offer_rebuild, phase: OpenPhase::Ask(m) })
                } else {
                    OpenStep::Failed(OpenError::Mismatch(m))
                },
                OpenReply::Opened(Err(OpenError::Other(e))) => OpenStep::Failed(OpenError::Other(e)),
                _ => OpenStep::More(OpenRun { offer_rebuild, phase: OpenPhase::First }),
            },
            OpenPhase::Ask(m) => match reply {
                OpenReply::Answered(Ok(true)) => OpenStep::More(
                    OpenRun { offer_rebuild, phase: OpenPhase::Delete(m.duckdb_path) },
                ),
                OpenReply::Answered(Ok(false)) => OpenStep::Failed(OpenError::Mismatch(m)),
                OpenReply::Answered(Err(e)) => OpenStep::Failed(OpenError::Other(e)),
                _ => OpenStep::More(OpenRun { offer_rebuild, phase: OpenPhase::Ask(m) }),
            },
            OpenPhase::Delete(path) => match reply {
                OpenReply::Deleted(Ok(_)) => OpenStep::More(OpenRun { offer_rebuild, phase: OpenPhase::Second }),
                OpenReply::Deleted(Err(e)) => OpenStep::Failed(OpenError::Other(e)),
                _ => OpenStep::More(OpenRun { offer_rebuild, phase: OpenPhase::Delete(path) }),
            },
            OpenPhase::Second => match reply {
                OpenReply::Opened(Ok(s)) => OpenStep::Done(s),
                OpenReply::Opened(Err(e)) => OpenStep::Failed(e),
                _ => OpenStep::More(OpenRun { offer_rebuild, phase: OpenPhase::Second }),
            },
        }
    }
}

/// Whether an opening went through these states, in this order.
pub open spec fn opened<S>(runs: Seq<OpenRun>, replies: Seq<OpenReply<S>>) -> bool {
    &&& runs.len() == replies.len() + 1
    &&& runs[0].phase is First
    &&& forall|k: int|
        0 <= k < replies.len() ==> #[trigger] runs[k].steps(replies[k], OpenStep::More(runs[k + 1]))
}

/// No file is deleted unless a rebuild was offered, the user was asked about this very file, and said
/// yes.
pub proof fn law_delete_needs_a_yes<S>(runs: Seq<OpenRun>, replies: Seq<OpenReply<S>>, n: int)
    requires
        opened(runs, replies),
        0 <= n < runs.len(),
        runs[n].phase is Delete,
    ensures
        runs[0].offer_rebuild,
        exists|k: int|
            {
                &&& 0 <= k < n
                &&& (#[trigger] runs[k]).phase matches OpenPhase::Ask(m)
                &&& m.duckdb_path == runs[n].phase->Delete_0
                &&& replies[k] == OpenReply::<S>::Answered(Ok(true))
            },
    decreases n,
{
    assert(runs[n - 1].steps(replies[n - 1], OpenStep::More(runs[n - 1 + 1])));
    if runs[n - 1].phase is Delete {
        law_delete_needs_a_yes(runs, replies, n - 1);
    } else {
        lemma_asked_where_offered(runs, replies, n - 1);
        assert(runs[n - 1].phase is Ask);
    }
}

proof fn lemma_asked_where_offered<S>(runs: Seq<OpenRun>, replies: Seq<OpenReply<S>>, n: int)
    requires
        opened(runs, replies),
        0 <= n < runs.len(),
        runs[n].phase is Ask,
    ensures
        runs[0].offer_rebuild,
    decreases n,
{
    assert(runs[n - 1].steps(replies[n - 1], OpenStep::More(runs[n - 1 + 1])));
    if runs[n - 1].phase is Ask {
        lemma_asked_where_offered(runs, replies, n - 1);
    } else {
        lemma_still_first(runs, replies, n - 1);
    }
}

proof fn lemma_still_first<S>(runs: Seq<OpenRun>, replies: Seq<OpenReply<S>>, n: int)
    requires
        opened(runs, replies),
        0 <= n < runs.len(),
        runs[n].phase is First,
    ensures
        runs[n].offer_rebuild == runs[0].offer_rebuild,
    decreases n,
{
    if n > 0 {
        assert(runs[n - 1].steps(replies[n - 1], OpenStep::More(runs[n - 1 + 1])));
        lemma_still_first(runs, replies, n - 1);
    }
}

/// A declined question leaves the failure as it was.
pub proof fn law_declined_keeps_the_failure<S>(run: OpenRun, m: DimMismatch, out: OpenStep<S>)
    requires
        run.phase == OpenPhase::Ask(m),
        run.steps(OpenReply::Answered(Ok(false)), out),
    ensures
        out == OpenStep::<S>::Failed(OpenError::Mismatch(m)),
{
}

/// A store is the result exactly if the opening gave it, and nothing is opened again unless the file was
/// deleted. The question is put exactly where the first opening finds vectors of another size and a
/// rebuild may be offered; any other failure is the result, as it came.
pub proof fn law_open_outcomes<S>(run: OpenRun, reply: OpenReply<S>, out: OpenStep<S>)
    requires
        run.steps(reply, out),
    ensures
        out matches OpenStep::Done(s) ==> reply == OpenReply::<S>::Opened(Ok(s)),
        (run.phase is First || run.phase is Second) ==> (reply matches OpenReply::Opened(Ok(s)) ==> out
            == OpenStep::<S>::Done(s)),
        run.phase is First && reply is Opened ==> ((out is More && out->More_0.phase is Ask) <==> (run.offer_rebuild
            && reply->Opened_0 is Err && reply->Opened_0->Err_0 is Mismatch)),
        run.phase is Second ==> (reply matches OpenReply::Opened(Err(e)) ==> out == OpenStep::<S>::Failed(e)),
        run.phase is First && !run.offer_rebuild ==> (reply matches OpenReply::Opened(Err(e)) ==> out
            == OpenStep::<S>::Failed(e)),
        out is More && out->More_0.phase is Second && !(run.phase is Second) ==> run.phase is Delete && reply is Deleted
            && reply->Deleted_0 is Ok,
        reply matches OpenReply::Answered(Err(e)) ==> run.phase is Ask ==> out == OpenStep::<S>::Failed(
            OpenError::Other(e),
        ),
        reply matches OpenReply::Deleted(Err(e)) ==> run.phase is Delete ==> out == OpenStep::<S>::Failed(
            OpenError::Other(e),
        ),
{
}

} // verus!
