//! Getting a staged commit to disk: through Raft first, then to persistence.
use super::raft;
use super::raft::RaftAnswer;
use super::routing;
use super::{CommitError, Refusal};
use vstd::prelude::*;
use vstd::string::*;

verus! {

/// Why a write to persistence failed.
#[derive(Clone, Copy, Debug, PartialEq, Eq, Structural)]
pub enum WriteFailure {
    /// The database did not answer in time.
    TimedOut,
    /// The database could not do it now.
    Operational,
    /// Anything else.
    Other,
}

/// Said in front of why a commit could not be written.
pub open spec fn unwritten(write_source: Seq<char>) -> Seq<char> {
    "Commit ("@ + write_source + ") failed to write to persistence"@
}

/// Takes in how a write to persistence went. `write_source` is how the source of
/// the commit is shown in a log.
pub fn write_to_persistence(write_source: &str, result: Result<(), CommitError>) -> (r: Result<(), CommitError>)
    ensures
        routing::objection(r) == match result {
            Ok(()) => None,
            Err(e) => Some(super::in_context(unwritten(write_source@), e@)),
        },
{
    match result {
        Ok(()) => Ok(()),
        Err(e) => {
            let mut s: String = String::new();
            s.append("Commit (");
            s.append(write_source);
            s.append(") failed to write to persistence");
            assert(s@ =~= unwritten(write_source@));
            Err(e.context(s.as_str()))
        },
    }
}

/// How a commit gets to disk.
#[derive(Clone, Copy, Debug, PartialEq, Eq, Structural)]
pub enum WriteStage {
    /// Propose the commit to Raft.
    Propose,
    /// Wait until Raft answers.
    AwaitRaft,
    /// Write the commit to persistence. After a failure that may pass, write it
    /// again, after a wait.
    Persist { raft_applied_index: Option<u64> },
    /// The commit is on disk.
    Written { raft_applied_index: Option<u64> },
    /// The commit did not get through Raft, and nothing was written.
    Rejected,
    /// Nobody knows whether the commit was written. The committer stops.
    Fatal,
}

/// How a stage went.
#[derive(Debug)]
pub enum WriteEvent {
    /// The proposal was handed to Raft, or it could not be.
    Proposed(Result<(), CommitError>),
    /// Raft has answered.
    Answered(RaftAnswer),
    /// Persistence has taken the write.
    Written,
    /// Persistence has not taken the write.
    Failed(WriteFailure, CommitError),
}

/// How a stage went, as contracts speak of it.
pub enum WriteNews {
    Proposed(Option<Refusal>),
    Answered(RaftAnswer),
    Written,
    Failed(WriteFailure, Refusal),
}

impl View for WriteEvent {
    type V = WriteNews;

    open spec fn view(&self) -> WriteNews {
        match self {
            WriteEvent::Proposed(Ok(())) => WriteNews::Proposed(None),
            WriteEvent::Proposed(Err(e)) => WriteNews::Proposed(Some(e@)),
            WriteEvent::Answered(a) => WriteNews::Answered(*a),
            WriteEvent::Written => WriteNews::Written,
            WriteEvent::Failed(f, e) => WriteNews::Failed(*f, e@),
        }
    }
}

/// What comes of a stage, and why the commit failed, if it did.
pub open spec fn write_turn(stage: WriteStage, news: WriteNews, commit_ts: u64) -> (WriteStage, Option<Refusal>) {
    match (stage, news) {
        (WriteStage::Propose, WriteNews::Proposed(None)) => (WriteStage::AwaitRaft, None),
        (WriteStage::Propose, WriteNews::Proposed(Some(e))) => (WriteStage::Rejected, Some(e)),
        (WriteStage::AwaitRaft, WriteNews::Answered(a)) => match raft::commit_answer(a, commit_ts) {
            Ok(raft_applied_index) => (WriteStage::Persist { raft_applied_index }, None),
            Err(e) => (WriteStage::Rejected, Some(e)),
        },
        (WriteStage::Persist { raft_applied_index }, WriteNews::Written) => (
            WriteStage::Written { raft_applied_index },
            None,
        ),
        (WriteStage::Persist { .. }, WriteNews::Failed(WriteFailure::Other, e)) => (
            WriteStage::Fatal,
            Some(e),
        ),
        _ => (stage, None),
    }
}

/// A commit on its way to disk.
#[derive(Clone, Copy, Debug, PartialEq, Eq, Structural)]
pub struct WriteFlow {
    pub commit_ts: u64,
    pub stage: WriteStage,
}

impl WriteFlow {
    /// Begins with a commit that has been staged.
    pub fn start(commit_ts: u64) -> (r: Self)
        ensures
            r == (WriteFlow { commit_ts, stage: WriteStage::Propose }),
    {
        WriteFlow { commit_ts, stage: WriteStage::Propose }
    }

    /// Goes on, given how the current stage went. Says why the commit failed, if
    /// it did.
    pub fn advance(&mut self, event: WriteEvent) -> (r: Option<CommitError>)
        ensures
            final(self).commit_ts == old(self).commit_ts,
            final(self).stage == write_turn(old(self).stage, event@, old(self).commit_ts).0,
            match r {
                Some(e) => write_turn(old(self).stage, event@, old(self).commit_ts).1 == Some(e@),
                None => write_turn(old(self).stage, event@, old(self).commit_ts).1 is None,
            },
    {
        let stage: WriteStage = self.stage;
        match (stage, event) {
            (WriteStage::Propose, WriteEvent::Proposed(Ok(()))) => {
                self.stage = WriteStage::AwaitRaft;
                None
            },
            (WriteStage::Propose, WriteEvent::Proposed(Err(e))) => {
                self.stage = WriteStage::Rejected;
                Some(e)
            },
            (WriteStage::AwaitRaft, WriteEvent::Answered(answer)) => {
                match raft::wait_for_raft_commit(answer, self.commit_ts) {
                    Ok(raft_applied_index) => {
                        self.stage = WriteStage::Persist { raft_applied_index };
                        None
                    },
                    Err(e) => {
                        self.stage = WriteStage::Rejected;
                        Some(e)
                    },
                }
            },
            (WriteStage::Persist { raft_applied_index }, WriteEvent::Written) => {
                self.stage = WriteStage::Written { raft_applied_index };
                None
            },
            (WriteStage::Persist { .. }, WriteEvent::Failed(failure, e)) => {
                if failure == WriteFailure::Other {
                    self.stage = WriteStage::Fatal;
                    Some(e)
                } else {
                    None
                }
            },
            _ => None,
        }
    }
}

/// Nothing goes to persistence before Raft has accepted it, where the partition
/// is replicated by Raft.
pub proof fn writes_follow_the_quorum(stage: WriteStage, news: WriteNews, commit_ts: u64)
    requires
        stage is Propose || stage is AwaitRaft,
        write_turn(stage, news, commit_ts).0 is Persist,
    ensures
        stage is AwaitRaft,
        news is Answered,
        match news->Answered_0 {
            RaftAnswer::NotReplicated => true,
            RaftAnswer::Committed { .. } => true,
            _ => false,
        },
{
}

/// A commit that Raft has accepted is written in the end or stops the committer:
/// it is never rejected.
pub proof fn accepted_commits_are_not_rejected(stage: WriteStage, news: WriteNews, commit_ts: u64)
    requires
        stage is Persist || stage is Written || stage is Fatal,
    ensures
        write_turn(stage, news, commit_ts).0 !is Rejected,
        stage is Written ==> write_turn(stage, news, commit_ts).0 == stage,
{
}

/// A failure that may pass changes nothing: the write is tried again.
pub proof fn passing_failures_are_retried(
    raft_applied_index: Option<u64>,
    failure: WriteFailure,
    e: Refusal,
    commit_ts: u64,
)
    requires
        failure != WriteFailure::Other,
    ensures
        write_turn(
            WriteStage::Persist { raft_applied_index },
            WriteNews::Failed(failure, e),
            commit_ts,
        ) == (WriteStage::Persist { raft_applied_index }, None::<Refusal>),
{
}

/// A commit is proposed, accepted and then written, and what the group accepted it at
/// stays with it; one that cannot be proposed or is not accepted is rejected with the
/// reason, and one that cannot be written for good is fatal.
pub proof fn commits_are_written_once_accepted(
    commit_ts: u64,
    answer: RaftAnswer,
    index: Option<u64>,
    e: Refusal,
)
    ensures
        write_turn(WriteStage::Propose, WriteNews::Proposed(None), commit_ts) == (
            WriteStage::AwaitRaft,
            None::<Refusal>,
        ),
        write_turn(WriteStage::Propose, WriteNews::Proposed(Some(e)), commit_ts) == (
            WriteStage::Rejected,
            Some(e),
        ),
        raft::commit_answer(answer, commit_ts) matches Ok(at) ==> write_turn(
            WriteStage::AwaitRaft,
            WriteNews::Answered(answer),
            commit_ts,
        ) == (WriteStage::Persist { raft_applied_index: at }, None::<Refusal>),
        raft::commit_answer(answer, commit_ts) matches Err(why) ==> write_turn(
            WriteStage::AwaitRaft,
            WriteNews::Answered(answer),
            commit_ts,
        ) == (WriteStage::Rejected, Some(why)),
        write_turn(
            WriteStage::Persist { raft_applied_index: index },
            WriteNews::Written,
            commit_ts,
        ) == (WriteStage::Written { raft_applied_index: index }, None::<Refusal>),
        write_turn(
            WriteStage::Persist { raft_applied_index: index },
            WriteNews::Failed(WriteFailure::Other, e),
            commit_ts,
        ) == (WriteStage::Fatal, Some(e)),
{
}

} // verus!
