//! Getting a write through the Raft group of the partition.
use super::{CommitError, Committer, CommitterState, RaftState, Refusal};
use crate::partition::PartitionId;
use crate::text;
use vstd::prelude::*;
use vstd::string::*;

verus! {

/// What became of something that was to go through Raft.
#[derive(Clone, Copy, Debug, PartialEq, Eq, Structural)]
pub enum RaftAnswer {
    /// The partition is not replicated by Raft: nothing was proposed.
    NotReplicated,
    /// A quorum holds the entry, at this index.
    Committed { index: u64 },
    /// The group turned the proposal down.
    Rejected,
    /// The group went away without an answer.
    Closed,
}

/// The index at which a commit was accepted, where the partition is replicated.
pub open spec fn commit_answer(answer: RaftAnswer, ts: u64) -> Result<Option<u64>, Refusal> {
    match answer {
        RaftAnswer::NotReplicated => Ok(None),
        RaftAnswer::Committed { index } => Ok(Some(index)),
        RaftAnswer::Rejected => Err(
            super::refused(
                "Raft rejected commit at ts="@ + text::dec(ts as nat) + " before quorum commit"@,
            ),
        ),
        RaftAnswer::Closed => Err(
            super::refused(
                "Raft proposal result channel closed before commit at ts="@ + text::dec(ts as nat)
                    + " reached quorum"@,
            ),
        ),
    }
}

/// The index at which a prepare was accepted, where the partition is replicated.
pub open spec fn prepare_answer(answer: RaftAnswer, id: Seq<char>, ts: u64) -> Result<Option<u64>, Refusal> {
    match answer {
        RaftAnswer::NotReplicated => Ok(None),
        RaftAnswer::Committed { index } => Ok(Some(index)),
        RaftAnswer::Rejected => Err(
            super::refused(
                "Raft rejected 2PC prepare for txn="@ + id + " at ts="@ + text::dec(ts as nat)
                    + " before quorum commit"@,
            ),
        ),
        RaftAnswer::Closed => Err(
            super::refused(
                "Raft proposal result channel closed before 2PC prepare txn="@ + id + " at ts="@
                    + text::dec(ts as nat) + " reached quorum"@,
            ),
        ),
    }
}

/// Takes Raft's answer to a commit.
pub fn wait_for_raft_commit(answer: RaftAnswer, commit_ts: u64) -> (r: Result<Option<u64>, CommitError>)
    ensures
        super::outcome(r) == commit_answer(answer, commit_ts),
{
    match answer {
        RaftAnswer::NotReplicated => Ok(None),
        RaftAnswer::Committed { index } => Ok(Some(index)),
        RaftAnswer::Rejected => {
            let mut s: String = String::new();
            s.append("Raft rejected commit at ts=");
            text::push_dec(&mut s, commit_ts);
            s.append(" before quorum commit");
            assert(s@ =~= "Raft rejected commit at ts="@ + text::dec(commit_ts as nat)
                + " before quorum commit"@);
            Err(CommitError::new(s))
        },
        RaftAnswer::Closed => {
            let mut s: String = String::new();
            s.append("Raft proposal result channel closed before commit at ts=");
            text::push_dec(&mut s, commit_ts);
            s.append(" reached quorum");
            assert(s@ =~= "Raft proposal result channel closed before commit at ts="@ + text::dec(
                commit_ts as nat,
            ) + " reached quorum"@);
            Err(CommitError::new(s))
        },
    }
}

/// Takes Raft's answer to a prepare.
pub fn wait_for_raft_prepare(answer: RaftAnswer, transaction_id: &str, prepare_ts: u64) -> (r: Result<
    Option<u64>,
    CommitError,
>)
    ensures
        super::outcome(r) == prepare_answer(answer, transaction_id@, prepare_ts),
{
    match answer {
        RaftAnswer::NotReplicated => Ok(None),
        RaftAnswer::Committed { index } => Ok(Some(index)),
        RaftAnswer::Rejected => {
            let mut s: String = String::new();
            s.append("Raft rejected 2PC prepare for txn=");
            s.append(transaction_id);
            s.append(" at ts=");
            text::push_dec(&mut s, prepare_ts);
            s.append(" before quorum commit");
            assert(s@ =~= "Raft rejected 2PC prepare for txn="@ + transaction_id@ + " at ts="@
                + text::dec(prepare_ts as nat) + " before quorum commit"@);
            Err(CommitError::new(s))
        },
        RaftAnswer::Closed => {
            let mut s: String = String::new();
            s.append("Raft proposal result channel closed before 2PC prepare txn=");
            s.append(transaction_id);
            s.append(" at ts=");
            text::push_dec(&mut s, prepare_ts);
            s.append(" reached quorum");
            assert(s@ =~= "Raft proposal result channel closed before 2PC prepare txn="@
                + transaction_id@ + " at ts="@ + text::dec(prepare_ts as nat)
                + " reached quorum"@);
            Err(CommitError::new(s))
        },
    }
}

/// Said when a commit finds that the node no longer leads.
pub open spec fn commit_leadership_lost(raft: RaftState, ts: u64) -> Refusal {
    super::refused(
        "Raft leadership lost before proposing commit at ts="@ + text::dec(ts as nat)
            + " for partition "@ + raft.partition.text(),
    )
}

/// Said when a prepare finds that the node no longer leads.
pub open spec fn prepare_leadership_lost(raft: RaftState, id: Seq<char>) -> Refusal {
    super::refused(
        "Raft leadership lost before proposing 2PC prepare for txn="@ + id + " on partition "@
            + raft.partition.text(),
    )
}

/// What went wrong with a proposal.
#[derive(Clone, Copy, Debug, PartialEq, Eq, Structural)]
pub enum ProposalStep {
    /// It could not be turned into bytes.
    Serialize,
    /// It did not reach the group.
    Send,
}

/// Said in front of why a commit could not be proposed.
pub open spec fn commit_proposal_context(step: ProposalStep, ts: u64, partition: PartitionId) -> Seq<char> {
    match step {
        ProposalStep::Serialize => "Failed to serialize commit delta at ts="@ + text::dec(ts as nat)
            + " for Raft proposal"@,
        ProposalStep::Send => "Failed to propose commit at ts="@ + text::dec(ts as nat)
            + " to Raft partition "@ + partition.text(),
    }
}

/// Says why a commit could not be proposed.
pub fn commit_proposal_failure(
    step: ProposalStep,
    ts: u64,
    partition: PartitionId,
    cause: CommitError,
) -> (r: CommitError)
    ensures
        r@ == super::in_context(commit_proposal_context(step, ts, partition), cause@),
{
    let mut s: String = String::new();
    match step {
        ProposalStep::Serialize => {
            s.append("Failed to serialize commit delta at ts=");
            text::push_dec(&mut s, ts);
            s.append(" for Raft proposal");
        },
        ProposalStep::Send => {
            s.append("Failed to propose commit at ts=");
            text::push_dec(&mut s, ts);
            s.append(" to Raft partition ");
            partition.push_to(&mut s);
        },
    }
    assert(s@ =~= commit_proposal_context(step, ts, partition));
    cause.context(s.as_str())
}

/// Said in front of why a prepare could not be proposed.
pub open spec fn prepare_proposal_context(
    step: ProposalStep,
    id: Seq<char>,
    partition: PartitionId,
) -> Seq<char> {
    match step {
        ProposalStep::Serialize => "Failed to serialize 2PC prepare for txn="@ + id
            + " for Raft proposal"@,
        ProposalStep::Send => "Failed to propose 2PC prepare for txn="@ + id
            + " to Raft partition "@ + partition.text(),
    }
}

/// Says why a prepare could not be proposed.
pub fn prepare_proposal_failure(
    step: ProposalStep,
    transaction_id: &str,
    partition: PartitionId,
    cause: CommitError,
) -> (r: CommitError)
    ensures
        r@ == super::in_context(
            prepare_proposal_context(step, transaction_id@, partition),
            cause@,
        ),
{
    let mut s: String = String::new();
    match step {
        ProposalStep::Serialize => {
            s.append("Failed to serialize 2PC prepare for txn=");
            s.append(transaction_id);
            s.append(" for Raft proposal");
        },
        ProposalStep::Send => {
            s.append("Failed to propose 2PC prepare for txn=");
            s.append(transaction_id);
            s.append(" to Raft partition ");
            partition.push_to(&mut s);
        },
    }
    assert(s@ =~= prepare_proposal_context(step, transaction_id@, partition));
    cause.context(s.as_str())
}

impl CommitterState {
    /// To which group a commit is proposed.
    pub open spec fn commit_proposal(self, ts: u64) -> Result<Option<RaftState>, Refusal> {
        match self.raft {
            None => Ok(None),
            Some(raft) => if raft.is_leader {
                Ok(Some(raft))
            } else {
                Err(commit_leadership_lost(raft, ts))
            },
        }
    }

    /// To which group a prepare is proposed.
    pub open spec fn prepare_proposal(self, id: Seq<char>) -> Result<Option<RaftState>, Refusal> {
        match self.raft {
            None => Ok(None),
            Some(raft) => if raft.is_leader {
                Ok(Some(raft))
            } else {
                Err(prepare_leadership_lost(raft, id))
            },
        }
    }
}

impl Committer {
    /// Decides whether a commit is proposed to Raft: not where there is no group,
    /// and only by its leader.
    pub fn propose_commit_to_raft(&self, ts: u64) -> (r: Result<Option<RaftState>, CommitError>)
        ensures
            super::outcome(r) == self@.commit_proposal(ts),
    {
        let raft: RaftState = match self.raft {
            Some(raft) => raft,
            None => {
                return Ok(None);
            },
        };
        if !raft.is_leader {
            let mut s: String = String::new();
            s.append("Raft leadership lost before proposing commit at ts=");
            text::push_dec(&mut s, ts);
            s.append(" for partition ");
            raft.partition.push_to(&mut s);
            assert(s@ =~= commit_leadership_lost(raft, ts).text);
            return Err(CommitError::new(s));
        }
        Ok(Some(raft))
    }

    /// Decides whether a prepare is proposed to Raft.
    pub fn propose_two_phase_prepare_to_raft(&self, transaction_id: &str) -> (r: Result<
        Option<RaftState>,
        CommitError,
    >)
        ensures
            super::outcome(r) == self@.prepare_proposal(transaction_id@),
    {
        let raft: RaftState = match self.raft {
            Some(raft) => raft,
            None => {
                return Ok(None);
            },
        };
        if !raft.is_leader {
            let mut s: String = String::new();
            s.append("Raft leadership lost before proposing 2PC prepare for txn=");
            s.append(transaction_id);
            s.append(" on partition ");
            raft.partition.push_to(&mut s);
            assert(s@ =~= prepare_leadership_lost(raft, transaction_id@).text);
            return Err(CommitError::new(s));
        }
        Ok(Some(raft))
    }
}

/// A commit or a prepare counts as accepted exactly where a quorum holds it, at the
/// index the quorum gave, or where there is no group to ask.
pub proof fn only_a_quorum_accepts(answer: RaftAnswer, id: Seq<char>, ts: u64, index: u64)
    ensures
        commit_answer(answer, ts) == Ok::<Option<u64>, Refusal>(Some(index)) <==> answer
            == (RaftAnswer::Committed { index }),
        commit_answer(answer, ts) == Ok::<Option<u64>, Refusal>(None) <==> answer
            == RaftAnswer::NotReplicated,
        commit_answer(answer, ts) is Err <==> answer == RaftAnswer::Rejected || answer
            == RaftAnswer::Closed,
        prepare_answer(answer, id, ts) == Ok::<Option<u64>, Refusal>(Some(index)) <==> answer
            == (RaftAnswer::Committed { index }),
        prepare_answer(answer, id, ts) == Ok::<Option<u64>, Refusal>(None) <==> answer
            == RaftAnswer::NotReplicated,
        prepare_answer(answer, id, ts) is Err <==> answer == RaftAnswer::Rejected || answer
            == RaftAnswer::Closed,
{
}

/// Only the leader of a group proposes to it, and to its own group; a node without a
/// group proposes nothing.
pub proof fn only_leaders_propose(state: CommitterState, id: Seq<char>, ts: u64)
    ensures
        match state.raft {
            None => state.commit_proposal(ts) == Ok::<Option<RaftState>, Refusal>(None)
                && state.prepare_proposal(id) == Ok::<Option<RaftState>, Refusal>(None),
            Some(raft) => if raft.is_leader {
                state.commit_proposal(ts) == Ok::<Option<RaftState>, Refusal>(Some(raft))
                    && state.prepare_proposal(id) == Ok::<Option<RaftState>, Refusal>(Some(raft))
            } else {
                state.commit_proposal(ts) is Err && state.prepare_proposal(id) is Err
            },
        },
{
}

/// Whoever lost the lead is told of what, and for which partition.
pub proof fn lost_leaders_are_named(raft: RaftState, ts: u64, id: Seq<char>)
    ensures
        commit_leadership_lost(raft, ts).text == "Raft leadership lost before proposing commit at ts="@
            + text::dec(ts as nat) + " for partition "@ + raft.partition.text(),
        commit_leadership_lost(raft, ts).occ is None,
        prepare_leadership_lost(raft, id).text == "Raft leadership lost before proposing 2PC prepare for txn="@
            + id + " on partition "@ + raft.partition.text(),
        prepare_leadership_lost(raft, id).occ is None,
{
}

} // verus!
