//! Timing the stages of a commit.
use super::outbox::{Replay, ReplayAction};
use super::participant::{ParticipantFlow, ParticipantStage};
use super::publish::{CommitPath, PublishFlow, PublishStage};
use super::write::{WriteFlow, WriteStage};
use crate::metrics;
use crate::metrics::{Timer, Timing};
use vstd::prelude::*;

verus! {

/// Where the time of a stage is spent.
#[derive(Clone, Copy, Debug, PartialEq, Eq, Structural)]
pub enum HotPath {
    /// A commit of this node alone.
    Local,
    /// A commit of a transaction that several partitions take part in.
    Participant,
    /// Drawing a timestamp from the oracle.
    Tso,
    /// Publishing what was left in the outbox.
    OutboxReplay,
}

/// A stage of a commit that is timed.
#[derive(Clone, Copy, Debug, PartialEq, Eq, Structural)]
pub enum HotStage {
    TimestampAllocate,
    RaftQuorumWait,
    PersistenceWrite,
    TwoPhaseRedo,
    TsoAdvanceCommitted,
    ApplyVisible,
    RaftMarkApplied,
    OutboxRecord,
    ReplicationPublish,
    OutboxClear,
}

impl HotPath {
    /// How the path is labelled.
    pub open spec fn text(self) -> Seq<char> {
        match self {
            HotPath::Local => "local"@,
            HotPath::Participant => "2pc_participant"@,
            HotPath::Tso => "tso"@,
            HotPath::OutboxReplay => "raft_nats_outbox_replay"@,
        }
    }

    /// How the path is labelled.
    pub fn label(self) -> (r: &'static str)
        ensures
            r@ == self.text(),
    {
        match self {
            HotPath::Local => "local",
            HotPath::Participant => "2pc_participant",
            HotPath::Tso => "tso",
            HotPath::OutboxReplay => "raft_nats_outbox_replay",
        }
    }
}

impl HotStage {
    /// How the stage is labelled.
    pub open spec fn text(self) -> Seq<char> {
        match self {
            HotStage::TimestampAllocate => "timestamp_allocate"@,
            HotStage::RaftQuorumWait => "raft_quorum_wait"@,
            HotStage::PersistenceWrite => "persistence_write"@,
            HotStage::TwoPhaseRedo => "two_phase_redo"@,
            HotStage::TsoAdvanceCommitted => "tso_advance_committed"@,
            HotStage::ApplyVisible => "apply_visible"@,
            HotStage::RaftMarkApplied => "raft_mark_applied"@,
            HotStage::OutboxRecord => "raft_nats_outbox_record"@,
            HotStage::ReplicationPublish => "replication_publish"@,
            HotStage::OutboxClear => "raft_nats_outbox_clear"@,
        }
    }

    /// How the stage is labelled.
    pub fn label(self) -> (r: &'static str)
        ensures
            r@ == self.text(),
    {
        match self {
            HotStage::TimestampAllocate => "timestamp_allocate",
            HotStage::RaftQuorumWait => "raft_quorum_wait",
            HotStage::PersistenceWrite => "persistence_write",
            HotStage::TwoPhaseRedo => "two_phase_redo",
            HotStage::TsoAdvanceCommitted => "tso_advance_committed",
            HotStage::ApplyVisible => "apply_visible",
            HotStage::RaftMarkApplied => "raft_mark_applied",
            HotStage::OutboxRecord => "raft_nats_outbox_record",
            HotStage::ReplicationPublish => "replication_publish",
            HotStage::OutboxClear => "raft_nats_outbox_clear",
        }
    }
}

/// The timer of a stage, whose work has failed unless it finishes.
pub open spec fn stage_timing(path: HotPath, stage: HotStage) -> Timing {
    metrics::status_timing(
        "DATABASE_COMMIT_HOT_PATH_STAGE_SECONDS"@,
        seq![("path"@, path.text()), ("stage"@, stage.text())],
    )
}

/// Starts the timer of a stage.
pub fn stage_timer(path: HotPath, stage: HotStage) -> (r: Timer)
    ensures
        r@ == stage_timing(path, stage),
{
    metrics::commit_hot_path_stage_timer(path.label(), stage.label())
}

/// Starts the timer of assigning a timestamp, which an oracle or the node's clock
/// gives.
pub fn timestamp_timer(has_oracle: bool) -> (r: Timer)
    ensures
        r@ == stage_timing(
            if has_oracle {
                HotPath::Tso
            } else {
                HotPath::Local
            },
            HotStage::TimestampAllocate,
        ),
{
    if has_oracle {
        stage_timer(HotPath::Tso, HotStage::TimestampAllocate)
    } else {
        stage_timer(HotPath::Local, HotStage::TimestampAllocate)
    }
}

impl CommitPath {
    /// Where the time of a commit that came this way is spent.
    pub open spec fn timed_path(self) -> HotPath {
        match self {
            CommitPath::Local => HotPath::Local,
            CommitPath::Participant => HotPath::Participant,
        }
    }
}

impl PublishFlow {
    /// What the stage that comes next is timed as.
    pub open spec fn timing(self) -> Option<Timing> {
        let path = self.path.timed_path();
        match self.stage {
            PublishStage::MarkApplied(_) => Some(stage_timing(path, HotStage::RaftMarkApplied)),
            PublishStage::RecordOutbox => Some(stage_timing(path, HotStage::OutboxRecord)),
            PublishStage::PublishDelta => Some(stage_timing(path, HotStage::ReplicationPublish)),
            PublishStage::ClearOutbox => Some(stage_timing(path, HotStage::OutboxClear)),
            _ => None,
        }
    }

    /// Starts the timer of the stage that comes next, if it is timed.
    pub fn timer(&self) -> (r: Option<Timer>)
        ensures
            match r {
                Some(timer) => self.timing() == Some(timer@),
                None => self.timing() is None,
            },
    {
        let path: HotPath = match self.path {
            CommitPath::Local => HotPath::Local,
            CommitPath::Participant => HotPath::Participant,
        };
        match self.stage {
            PublishStage::MarkApplied(_) => Some(stage_timer(path, HotStage::RaftMarkApplied)),
            PublishStage::RecordOutbox => Some(stage_timer(path, HotStage::OutboxRecord)),
            PublishStage::PublishDelta => Some(stage_timer(path, HotStage::ReplicationPublish)),
            PublishStage::ClearOutbox => Some(stage_timer(path, HotStage::OutboxClear)),
            _ => None,
        }
    }
}

impl WriteFlow {
    /// What the stage that comes next is timed as. Where there is no group to wait
    /// for, nothing is timed.
    pub open spec fn timing(self, has_raft: bool) -> Option<Timing> {
        match self.stage {
            WriteStage::AwaitRaft => if has_raft {
                Some(stage_timing(HotPath::Local, HotStage::RaftQuorumWait))
            } else {
                None
            },
            WriteStage::Persist { .. } => Some(
                stage_timing(HotPath::Local, HotStage::PersistenceWrite),
            ),
            _ => None,
        }
    }

    /// Starts the timer of the stage that comes next, if it is timed.
    pub fn timer(&self, has_raft: bool) -> (r: Option<Timer>)
        ensures
            match r {
                Some(timer) => self.timing(has_raft) == Some(timer@),
                None => self.timing(has_raft) is None,
            },
    {
        match self.stage {
            WriteStage::AwaitRaft => {
                if has_raft {
                    Some(stage_timer(HotPath::Local, HotStage::RaftQuorumWait))
                } else {
                    None
                }
            },
            WriteStage::Persist { .. } => Some(
                stage_timer(HotPath::Local, HotStage::PersistenceWrite),
            ),
            _ => None,
        }
    }
}

impl ParticipantFlow {
    /// What the stage that comes next is timed as. Where there is no group to wait
    /// for, nothing is timed.
    pub open spec fn timing(self, has_raft: bool) -> Option<Timing> {
        match self.stage {
            ParticipantStage::AwaitRaft => if has_raft {
                Some(stage_timing(HotPath::Participant, HotStage::RaftQuorumWait))
            } else {
                None
            },
            ParticipantStage::Persist { .. } => Some(
                stage_timing(HotPath::Participant, HotStage::PersistenceWrite),
            ),
            _ => None,
        }
    }

    /// Starts the timer of the stage that comes next, if it is timed.
    pub fn timer(&self, has_raft: bool) -> (r: Option<Timer>)
        ensures
            match r {
                Some(timer) => self.timing(has_raft) == Some(timer@),
                None => self.timing(has_raft) is None,
            },
    {
        match self.stage {
            ParticipantStage::AwaitRaft => {
                if has_raft {
                    Some(stage_timer(HotPath::Participant, HotStage::RaftQuorumWait))
                } else {
                    None
                }
            },
            ParticipantStage::Persist { .. } => Some(
                stage_timer(HotPath::Participant, HotStage::PersistenceWrite),
            ),
            _ => None,
        }
    }
}

impl Replay {
    /// What the next action is timed as.
    pub open spec fn timing(self) -> Option<Timing> {
        match self.next() {
            ReplayAction::Publish(_) => Some(
                stage_timing(HotPath::OutboxReplay, HotStage::ReplicationPublish),
            ),
            ReplayAction::Clear(_) => Some(
                stage_timing(HotPath::OutboxReplay, HotStage::OutboxClear),
            ),
            ReplayAction::Done(_) => None,
        }
    }

    /// Starts the timer of the next action, if it is timed.
    pub fn timer(&self) -> (r: Option<Timer>)
        ensures
            match r {
                Some(timer) => self.timing() == Some(timer@),
                None => self.timing() is None,
            },
    {
        match self.action() {
            ReplayAction::Publish(_) => Some(
                stage_timer(HotPath::OutboxReplay, HotStage::ReplicationPublish),
            ),
            ReplayAction::Clear(_) => Some(stage_timer(HotPath::OutboxReplay, HotStage::OutboxClear)),
            ReplayAction::Done(_) => None,
        }
    }
}

/// Every stage of a commit that waits for somebody is timed, under the path that the
/// commit takes and under a name of its own, and counts as failed unless it finishes.
pub proof fn waiting_is_timed(publish: PublishFlow, write: WriteFlow, participant: ParticipantFlow, replay: Replay)
    ensures
        ({
            let path = if publish.path == CommitPath::Local {
                HotPath::Local
            } else {
                HotPath::Participant
            };
            &&& publish.stage is MarkApplied ==> publish.timing() == Some(
                stage_timing(path, HotStage::RaftMarkApplied),
            )
            &&& publish.stage == PublishStage::RecordOutbox ==> publish.timing() == Some(
                stage_timing(path, HotStage::OutboxRecord),
            )
            &&& publish.stage == PublishStage::PublishDelta ==> publish.timing() == Some(
                stage_timing(path, HotStage::ReplicationPublish),
            )
            &&& publish.stage == PublishStage::ClearOutbox ==> publish.timing() == Some(
                stage_timing(path, HotStage::OutboxClear),
            )
        }),
        write.stage is AwaitRaft ==> write.timing(true) == Some(
            stage_timing(HotPath::Local, HotStage::RaftQuorumWait),
        ) && write.timing(false) is None,
        write.stage is Persist ==> write.timing(true) == Some(
            stage_timing(HotPath::Local, HotStage::PersistenceWrite),
        ) && write.timing(false) == write.timing(true),
        participant.stage is AwaitRaft ==> participant.timing(true) == Some(
            stage_timing(HotPath::Participant, HotStage::RaftQuorumWait),
        ) && participant.timing(false) is None,
        participant.stage is Persist ==> participant.timing(true) == Some(
            stage_timing(HotPath::Participant, HotStage::PersistenceWrite),
        ) && participant.timing(false) == participant.timing(true),
        replay.replayed < replay.total ==> replay.timing() == Some(
            stage_timing(
                HotPath::OutboxReplay,
                if replay.published {
                    HotStage::OutboxClear
                } else {
                    HotStage::ReplicationPublish
                },
            ),
        ),
        replay.replayed >= replay.total ==> replay.timing() is None,
{
}

/// A timed stage is labelled with its path and its name.
pub proof fn timed_stages_are_labelled(path: HotPath, stage: HotStage)
    ensures
        stage_timing(path, stage).labels == seq![("path"@, path.text()), ("stage"@, stage.text())],
        stage_timing(path, stage).metric == "DATABASE_COMMIT_HOT_PATH_STAGE_SECONDS"@,
        stage_timing(path, stage).final_labels(true) == stage_timing(path, stage).labels.push(
            ("status"@, "success"@),
        ),
        stage_timing(path, stage).final_labels(false) == stage_timing(path, stage).labels.push(
            ("status"@, "error"@),
        ),
        HotPath::Local.text() == "local"@ && HotPath::Participant.text() == "2pc_participant"@,
        HotPath::Tso.text() == "tso"@ && HotPath::OutboxReplay.text()
            == "raft_nats_outbox_replay"@,
{
}

} // verus!
