//! Committing a transaction that was prepared here: through Raft first, then to
//! persistence, then to readers.
use super::delta;
use super::delta::CommitDelta;
use super::prepared;
use super::publish;
use super::publish::{CommitPath, PublishFlow, TableSummary};
use super::raft;
use super::raft::RaftAnswer;
use super::write::{WriteEvent, WriteNews};
use super::{CommitError, Committer, PreparedTransaction, Refusal};
use crate::documents::TableMapping;
use crate::metrics::{MetricsRecorder, Subgauge};
use vstd::prelude::*;
use vstd::string::*;

verus! {

/// What is done next about a prepared transaction that is committed.
#[derive(Clone, Copy, Debug, PartialEq, Eq, Structural)]
pub enum ParticipantStage {
    /// Propose the commit to Raft.
    Propose,
    /// Wait until Raft answers.
    AwaitRaft,
    /// Write the commit to persistence.
    Persist { raft_applied_index: Option<u64> },
    /// Let readers see it.
    Publish { raft_applied_index: Option<u64> },
    /// Readers see it.
    Published,
    /// Whoever asked is told why it was not committed.
    Failed,
}

/// What comes of a stage, and why the commit failed, if it did. Nothing is tried
/// again here: the coordinator asks again.
pub open spec fn participant_turn(stage: ParticipantStage, news: WriteNews, commit_ts: u64) -> (
    ParticipantStage,
    Option<Refusal>,
) {
    match (stage, news) {
        (ParticipantStage::Propose, WriteNews::Proposed(None)) => (
            ParticipantStage::AwaitRaft,
            None,
        ),
        (ParticipantStage::Propose, WriteNews::Proposed(Some(e))) => (
            ParticipantStage::Failed,
            Some(e),
        ),
        (ParticipantStage::AwaitRaft, WriteNews::Answered(a)) => match raft::commit_answer(
            a,
            commit_ts,
        ) {
            Ok(raft_applied_index) => (ParticipantStage::Persist { raft_applied_index }, None),
            Err(e) => (ParticipantStage::Failed, Some(e)),
        },
        (ParticipantStage::Persist { raft_applied_index }, WriteNews::Written) => (
            ParticipantStage::Publish { raft_applied_index },
            None,
        ),
        (ParticipantStage::Persist { .. }, WriteNews::Failed(_, e)) => (
            ParticipantStage::Failed,
            Some(e),
        ),
        _ => (stage, None),
    }
}

/// A prepared transaction on its way to being committed. It stays prepared until
/// readers see it.
#[derive(Debug)]
pub struct ParticipantFlow {
    pub transaction_id: String,
    /// What is written, and what the other nodes will be told.
    pub delta: CommitDelta,
    pub stage: ParticipantStage,
    /// Why a stage before the last has failed, if one has.
    pub failure: Option<CommitError>,
}

impl ParticipantFlow {
    /// The failure, as contracts speak of it.
    pub open spec fn refusal(self) -> Option<Refusal> {
        match self.failure {
            Some(e) => Some(e@),
            None => None,
        }
    }

    /// Goes on, given how the current stage went.
    pub fn advance(&mut self, event: WriteEvent)
        ensures
            *final(self) == (ParticipantFlow {
                stage: final(self).stage,
                failure: final(self).failure,
                ..*old(self)
            }),
            final(self).stage == participant_turn(old(self).stage, event@, old(self).delta.ts).0,
            final(self).refusal() == match participant_turn(
                old(self).stage,
                event@,
                old(self).delta.ts,
            ).1 {
                Some(e) => Some(e),
                None => old(self).refusal(),
            },
    {
        let stage: ParticipantStage = self.stage;
        match (stage, event) {
            (ParticipantStage::Propose, WriteEvent::Proposed(Ok(()))) => {
                self.stage = ParticipantStage::AwaitRaft;
            },
            (ParticipantStage::Propose, WriteEvent::Proposed(Err(e))) => {
                self.failure = Some(e);
                self.stage = ParticipantStage::Failed;
            },
            (ParticipantStage::AwaitRaft, WriteEvent::Answered(answer)) => {
                match raft::wait_for_raft_commit(answer, self.delta.ts) {
                    Ok(raft_applied_index) => {
                        self.stage = ParticipantStage::Persist { raft_applied_index };
                    },
                    Err(e) => {
                        self.failure = Some(e);
                        self.stage = ParticipantStage::Failed;
                    },
                }
            },
            (ParticipantStage::Persist { raft_applied_index }, WriteEvent::Written) => {
                self.stage = ParticipantStage::Publish { raft_applied_index };
            },
            (ParticipantStage::Persist { .. }, WriteEvent::Failed(_, e)) => {
                self.failure = Some(e);
                self.stage = ParticipantStage::Failed;
            },
            _ => {},
        }
    }
}

impl Committer {
    /// Begins to commit a prepared transaction: says what is written and what the
    /// other nodes will be told. The transaction stays prepared until it is in
    /// persistence.
    pub fn handle_commit_prepared(&self, transaction_id: &str, table_mapping: &TableMapping) -> (r: Result<
        ParticipantFlow,
        CommitError,
    >)
        ensures
            match r {
                Ok(flow) => {
                    let p = self@.prepared[transaction_id@];
                    let d = flow.delta;
                    &&& flow.transaction_id@ == transaction_id@
                    &&& flow.stage == ParticipantStage::Propose
                    &&& flow.failure is None
                    &&& self@.prepared.contains_key(transaction_id@)
                    &&& d.ts == p.commit_ts
                    &&& d.document_writes == p.document_writes
                    &&& d.document_updates == p.updates
                    &&& d.index_writes == p.index_writes
                    &&& d.write_source == p.source
                    &&& d.write_bytes == p.write_bytes
                    &&& delta::table_names(d.tables@) == delta::names_in(
                        p.updates@,
                        table_mapping.tables@,
                    )
                    &&& d.source_partition == self@.source_partition()
                },
                Err(e) => !self@.prepared.contains_key(transaction_id@) && e@
                    == prepared::unknown_commit(transaction_id@),
            },
    {
        match self.prepared.get(transaction_id) {
            Some(p) => {
                let source_partition = self.source_partition();
                let delta: CommitDelta = delta::build_commit_delta(
                    p.commit_ts,
                    &p.updates,
                    &p.source,
                    table_mapping,
                    p.write_bytes,
                    &p.document_writes,
                    &p.index_writes,
                    source_partition,
                );
                Ok(
                    ParticipantFlow {
                        transaction_id: transaction_id.to_owned(),
                        delta,
                        stage: ParticipantStage::Propose,
                        failure: None,
                    },
                )
            },
            None => Err(unknown_commit_error(transaction_id)),
        }
    }

    /// Publishes a prepared transaction that is in persistence: it is no longer
    /// prepared, and readers see it. The others are told next.
    pub fn publish_prepared(
        &mut self,
        metrics: &mut MetricsRecorder,
        gauge: &mut Subgauge,
        flow: &mut ParticipantFlow,
        summary: Option<TableSummary>,
    ) -> (r: Result<PublishFlow, CommitError>)
        requires
            old(flow).stage is Publish,
        ensures
            *final(flow) == (ParticipantFlow { stage: final(flow).stage, ..*old(flow) }),
            final(flow).stage == match r {
                Ok(_) => ParticipantStage::Published,
                Err(_) => ParticipantStage::Failed,
            },
            r matches Ok(telling) ==> telling.begins(
                CommitPath::Participant,
                old(flow).delta.ts,
                old(flow).delta.source_partition,
                old(flow).stage->Publish_raft_applied_index,
                old(self)@.raft is Some,
            ),
            ({
                let id = old(flow).transaction_id@;
                let delta = old(flow).delta;
                if old(self)@.prepared.contains_key(id) {
                    let p = old(self)@.prepared[id];
                    let taken = old(self)@.without_prepared(id);
                    &&& match r {
                        Ok(_) => taken.publish_objection(p.commit_ts, delta.ts) is None,
                        Err(e) => taken.publish_objection(p.commit_ts, delta.ts) == Some(e@),
                    }
                    &&& final(self)@ == match r {
                        Ok(_) => taken.published(p.commit_ts, p.snapshot),
                        Err(_) => taken,
                    }
                    &&& final(metrics)@ == match r {
                        Ok(_) => old(metrics)@ + publish::commit_samples(
                            p.updates@.len(),
                            delta.write_bytes,
                            summary,
                            old(gauge).metric(),
                            old(gauge).share(),
                        ),
                        Err(_) => old(metrics)@,
                    }
                    &&& final(gauge).metric() == old(gauge).metric()
                    &&& final(gauge).share() == match (r, summary) {
                        (Ok(_), Some(s)) => s.user_docs_size as int,
                        _ => old(gauge).share(),
                    }
                } else {
                    &&& r matches Err(e)
                    &&& e@ == prepared::unknown_commit(id)
                    &&& final(self)@ == old(self)@
                    &&& final(metrics)@ == old(metrics)@
                    &&& *final(gauge) == *old(gauge)
                }
            }),
    {
        let raft_applied_index: Option<u64> = match flow.stage {
            ParticipantStage::Publish { raft_applied_index } => raft_applied_index,
            _ => None,
        };
        let has_raft: bool = self.raft.is_some();
        let taken: Option<PreparedTransaction> = self.prepared.remove(flow.transaction_id.as_str());
        match taken {
            None => {
                assert(self@ =~= old(self)@);
                flow.stage = ParticipantStage::Failed;
                Err(unknown_commit_error(flow.transaction_id.as_str()))
            },
            Some(p) => {
                assert(self@ =~= old(self)@.without_prepared(flow.transaction_id@));
                match self.publish_commit_from_updates(
                    metrics,
                    gauge,
                    p.commit_ts,
                    p.updates.len(),
                    p.snapshot,
                    flow.delta.ts,
                    flow.delta.write_bytes,
                    summary,
                ) {
                    Ok(()) => {
                        flow.stage = ParticipantStage::Published;
                        Ok(
                            PublishFlow::start(
                                CommitPath::Participant,
                                flow.delta.ts,
                                flow.delta.source_partition,
                                raft_applied_index,
                                has_raft,
                            ),
                        )
                    },
                    Err(e) => {
                        flow.stage = ParticipantStage::Failed;
                        Err(e)
                    },
                }
            },
        }
    }
}

fn unknown_commit_error(transaction_id: &str) -> (r: CommitError)
    ensures
        r@ == prepared::unknown_commit(transaction_id@),
{
    let mut s: String = String::new();
    s.append("2PC CommitPrepared: unknown transaction ");
    s.append(transaction_id);
    assert(s@ =~= prepared::unknown_commit(transaction_id@).text);
    CommitError::new(s)
}

/// Readers see a prepared transaction only after persistence has taken it, and
/// persistence gets it only after Raft has accepted it, where the partition is
/// replicated by Raft.
pub proof fn prepared_commits_are_written_first(stage: ParticipantStage, news: WriteNews, commit_ts: u64)
    ensures
        participant_turn(stage, news, commit_ts).0 is Publish && !(stage is Publish) ==> {
            &&& stage is Persist
            &&& news is Written
            &&& participant_turn(stage, news, commit_ts).0->Publish_raft_applied_index
                == stage->Persist_raft_applied_index
        },
        participant_turn(stage, news, commit_ts).0 is Persist && !(stage is Persist) ==> {
            &&& stage is AwaitRaft
            &&& news matches WriteNews::Answered(answer)
            &&& raft::commit_answer(answer, commit_ts) == Ok::<Option<u64>, Refusal>(
                participant_turn(stage, news, commit_ts).0->Persist_raft_applied_index,
            )
            &&& match answer {
                RaftAnswer::NotReplicated => true,
                RaftAnswer::Committed { .. } => true,
                _ => false,
            }
        },
        participant_turn(stage, news, commit_ts).0 is AwaitRaft && !(stage is AwaitRaft)
            ==> stage is Propose && news == WriteNews::Proposed(None),
{
}

/// A commit that has failed is never published.
pub proof fn failed_prepared_commits_stay_prepared(stage: ParticipantStage, news: WriteNews, commit_ts: u64)
    requires
        participant_turn(stage, news, commit_ts).1 is Some,
    ensures
        participant_turn(stage, news, commit_ts).0 == ParticipantStage::Failed,
        forall|later: WriteNews|
            participant_turn(ParticipantStage::Failed, later, commit_ts) == (
                ParticipantStage::Failed,
                None::<Refusal>,
            ),
{
}

/// A prepared transaction that is to commit is proposed, accepted, written and then
/// published, and ends with the reason wherever one of these fails.
pub proof fn prepared_commits_are_published_once_written(
    commit_ts: u64,
    answer: RaftAnswer,
    index: Option<u64>,
    failure: super::write::WriteFailure,
    e: Refusal,
)
    ensures
        participant_turn(ParticipantStage::Propose, WriteNews::Proposed(None), commit_ts) == (
            ParticipantStage::AwaitRaft,
            None::<Refusal>,
        ),
        participant_turn(ParticipantStage::Propose, WriteNews::Proposed(Some(e)), commit_ts) == (
            ParticipantStage::Failed,
            Some(e),
        ),
        raft::commit_answer(answer, commit_ts) matches Ok(at) ==> participant_turn(
            ParticipantStage::AwaitRaft,
            WriteNews::Answered(answer),
            commit_ts,
        ) == (ParticipantStage::Persist { raft_applied_index: at }, None::<Refusal>),
        raft::commit_answer(answer, commit_ts) matches Err(why) ==> participant_turn(
            ParticipantStage::AwaitRaft,
            WriteNews::Answered(answer),
            commit_ts,
        ) == (ParticipantStage::Failed, Some(why)),
        participant_turn(
            ParticipantStage::Persist { raft_applied_index: index },
            WriteNews::Written,
            commit_ts,
        ) == (ParticipantStage::Publish { raft_applied_index: index }, None::<Refusal>),
        participant_turn(
            ParticipantStage::Persist { raft_applied_index: index },
            WriteNews::Failed(failure, e),
            commit_ts,
        ) == (ParticipantStage::Failed, Some(e)),
{
}

} // verus!
