//! The end of a delta of another node: what is written before readers see it, and
//! in which order.
use super::prepared;
use super::replica::QueuedDelta;
use super::{CommitError, Committer, CommitterState, Refusal, SnapshotId};
use crate::partition::PartitionId;
use std::collections::BTreeMap;
use vstd::prelude::*;
use vstd::string::*;

verus! {

/// What is done next about a delta that has been applied to a snapshot.
#[derive(Clone, Copy, Debug, PartialEq, Eq, Structural)]
pub enum DeltaStage {
    /// Write documents and index entries, over what may be there.
    WriteRows,
    /// Record the delta's timestamp as repeatable.
    RecordRepeatable,
    /// Record how far other partitions can be read.
    RecordFrontiers,
    /// Wait until everything queued before has been taken in.
    AwaitTurn,
    /// Record up to where deltas have been received.
    RecordWatermarks,
    /// Record up to where deltas with data have been received.
    RecordDataWatermarks,
    /// Put the delta into the outbox.
    RecordOutbox,
    /// Let readers see it.
    Publish,
    /// Delete the redo record of the transaction that the delta committed.
    DeleteRedo,
    /// Tell whoever sent the delta.
    Reply,
    /// The committer cannot go on.
    Failed,
}

/// What comes after `stage`, given whether it is done. Only a delta with a source
/// moves frontiers and watermarks. Whatever is not written stops the committer; only
/// a redo record may be left behind.
pub open spec fn delta_turn(stage: DeltaStage, has_source: bool, records_outbox: bool, ok: bool) -> DeltaStage {
    let last = if records_outbox {
        DeltaStage::RecordOutbox
    } else {
        DeltaStage::Publish
    };
    match stage {
        DeltaStage::WriteRows => if ok {
            DeltaStage::RecordRepeatable
        } else {
            DeltaStage::Failed
        },
        DeltaStage::RecordRepeatable => if !ok {
            DeltaStage::Failed
        } else if has_source {
            DeltaStage::RecordFrontiers
        } else {
            DeltaStage::AwaitTurn
        },
        DeltaStage::RecordFrontiers => if ok {
            DeltaStage::AwaitTurn
        } else {
            DeltaStage::Failed
        },
        DeltaStage::RecordWatermarks => if ok {
            DeltaStage::RecordDataWatermarks
        } else {
            DeltaStage::Failed
        },
        DeltaStage::RecordDataWatermarks => if ok {
            last
        } else {
            DeltaStage::Failed
        },
        DeltaStage::RecordOutbox => if ok {
            DeltaStage::Publish
        } else {
            DeltaStage::Failed
        },
        DeltaStage::DeleteRedo => DeltaStage::Reply,
        DeltaStage::AwaitTurn => DeltaStage::AwaitTurn,
        DeltaStage::Publish => DeltaStage::Publish,
        DeltaStage::Reply => DeltaStage::Reply,
        DeltaStage::Failed => DeltaStage::Failed,
    }
}

/// What comes when it is a delta's turn.
pub open spec fn first_record(has_source: bool, records_outbox: bool) -> DeltaStage {
    if has_source {
        DeltaStage::RecordWatermarks
    } else if records_outbox {
        DeltaStage::RecordOutbox
    } else {
        DeltaStage::Publish
    }
}

/// A delta on its way to readers.
#[derive(Debug)]
pub struct DeltaFlow {
    pub commit_id: usize,
    pub commit_ts: u64,
    pub remote_ts: u64,
    pub source_partition: Option<PartitionId>,
    pub snapshot: SnapshotId,
    /// Whether the delta changes an index, so that subscriptions hear of it.
    pub has_writes: bool,
    /// What is written.
    pub queued: QueuedDelta,
    pub stage: DeltaStage,
    /// The transaction that the delta committed, once readers see it.
    pub committed: Option<String>,
    /// Set where the stage is [`DeltaStage::Failed`]. Where that comes before the
    /// delta's turn, [`Committer::take_in`] gets it in place of the delta.
    pub failure: Option<CommitError>,
}

impl DeltaFlow {
    /// The failure, as contracts speak of it.
    pub open spec fn refusal(self) -> Option<Refusal> {
        match self.failure {
            Some(e) => Some(e@),
            None => None,
        }
    }

    /// The transaction that the delta committed.
    pub open spec fn committed_id(self) -> Option<Seq<char>> {
        match self.committed {
            Some(id) => Some(id@),
            None => None,
        }
    }

    /// Nothing but the stage and the failure differ.
    pub open spec fn same_delta(self, other: DeltaFlow) -> bool {
        self == (DeltaFlow { stage: self.stage, failure: self.failure, ..other })
    }

    /// Begins with a delta that has been queued.
    pub fn start(
        commit_id: usize,
        commit_ts: u64,
        remote_ts: u64,
        source_partition: Option<PartitionId>,
        snapshot: SnapshotId,
        has_writes: bool,
        queued: QueuedDelta,
    ) -> (r: Self)
        ensures
            r == (DeltaFlow {
                commit_id,
                commit_ts,
                remote_ts,
                source_partition,
                snapshot,
                has_writes,
                queued,
                stage: DeltaStage::WriteRows,
                committed: None,
                failure: None,
            }),
    {
        DeltaFlow {
            commit_id,
            commit_ts,
            remote_ts,
            source_partition,
            snapshot,
            has_writes,
            queued,
            stage: DeltaStage::WriteRows,
            committed: None,
            failure: None,
        }
    }

    /// Goes on, given how the current stage went.
    pub fn advance(&mut self, result: Result<(), CommitError>)
        ensures
            final(self).same_delta(*old(self)),
            final(self).stage == delta_turn(
                old(self).stage,
                old(self).source_partition is Some,
                old(self).queued.records_outbox,
                result is Ok,
            ),
            final(self).refusal() == if final(self).stage == DeltaStage::Failed && old(self).stage
                != DeltaStage::Failed {
                match result {
                    Err(e) => Some(e@),
                    Ok(()) => old(self).refusal(),
                }
            } else {
                old(self).refusal()
            },
    {
        let stage: DeltaStage = self.stage;
        let ok: bool = result.is_ok();
        let records: bool = match stage {
            DeltaStage::WriteRows | DeltaStage::RecordRepeatable | DeltaStage::RecordFrontiers
            | DeltaStage::RecordWatermarks | DeltaStage::RecordDataWatermarks
            | DeltaStage::RecordOutbox => true,
            _ => false,
        };
        if records && !ok {
            if let Err(e) = result {
                self.failure = Some(e);
            }
            self.stage = DeltaStage::Failed;
            return;
        }
        self.stage = match stage {
            DeltaStage::WriteRows => DeltaStage::RecordRepeatable,
            DeltaStage::RecordRepeatable => if self.source_partition.is_some() {
                DeltaStage::RecordFrontiers
            } else {
                DeltaStage::AwaitTurn
            },
            DeltaStage::RecordFrontiers => DeltaStage::AwaitTurn,
            DeltaStage::RecordWatermarks => DeltaStage::RecordDataWatermarks,
            DeltaStage::RecordDataWatermarks => if self.queued.records_outbox {
                DeltaStage::RecordOutbox
            } else {
                DeltaStage::Publish
            },
            DeltaStage::RecordOutbox => DeltaStage::Publish,
            DeltaStage::DeleteRedo => DeltaStage::Reply,
            _ => stage,
        };
    }

    /// Goes on when it is the delta's turn.
    pub fn take_turn(&mut self)
        requires
            old(self).stage == DeltaStage::AwaitTurn,
        ensures
            *final(self) == (DeltaFlow {
                stage: first_record(
                    old(self).source_partition is Some,
                    old(self).queued.records_outbox,
                ),
                ..*old(self)
            }),
    {
        self.stage = if self.source_partition.is_some() {
            DeltaStage::RecordWatermarks
        } else if self.queued.records_outbox {
            DeltaStage::RecordOutbox
        } else {
            DeltaStage::Publish
        };
    }
}

fn copied(m: &Option<BTreeMap<u32, u64>>) -> (r: Option<BTreeMap<u32, u64>>)
    ensures
        match (r, *m) {
            (Some(a), Some(b)) => a@ == b@,
            (None, None) => true,
            _ => false,
        },
{
    match m {
        Some(m) => Some(super::copy_timestamps(m)),
        None => None,
    }
}

impl CommitterState {
    /// The state with what a delta brought in of what has been received, once
    /// readers see the delta.
    pub open spec fn delta_visible(self, flow: DeltaFlow) -> CommitterState {
        CommitterState {
            watermarks: match flow.queued.watermarks {
                Some(m) => m@,
                None => self.watermarks,
            },
            data_watermarks: match flow.queued.data_watermarks {
                Some(m) => m@,
                None => self.data_watermarks,
            },
            ..self
        }.delta_published(
            flow.commit_ts,
            flow.remote_ts,
            flow.snapshot,
            flow.has_writes,
            flow.source_partition,
        )
    }
}

impl Committer {
    /// Lets readers see a delta, once all that goes before has been written. Where
    /// it commits a transaction that was prepared here, that is prepared no longer.
    pub fn publish_delta(&mut self, flow: &mut DeltaFlow)
        requires
            old(flow).stage == DeltaStage::Publish,
        ensures
            ({
                let visible = old(self)@.delta_visible(*old(flow));
                let found = visible.prepared_for(old(flow).remote_ts);
                &&& *final(flow) == (DeltaFlow {
                    stage: final(flow).stage,
                    committed: final(flow).committed,
                    failure: final(flow).failure,
                    ..*old(flow)
                })
                &&& if old(flow).source_partition != Some(old(self)@.local_partition())
                    || found.len() == 0 {
                    &&& final(flow).stage == DeltaStage::Reply
                    &&& final(flow).committed_id() is None
                    &&& final(flow).refusal() == old(flow).refusal()
                    &&& final(self)@ == visible
                } else if found.len() == 1 {
                    &&& final(flow).stage == DeltaStage::DeleteRedo
                    &&& final(flow).committed_id() == Some(found[0])
                    &&& final(flow).refusal() == old(flow).refusal()
                    &&& final(self)@ == visible.without_prepared(found[0])
                } else {
                    &&& final(flow).stage == DeltaStage::Failed
                    &&& final(flow).committed_id() == old(flow).committed_id()
                    &&& final(flow).refusal() == Some(
                        prepared::ambiguous_cleanup(found.len(), old(flow).remote_ts),
                    )
                    &&& final(self)@ == visible
                }
            }),
    {
        let watermarks = copied(&flow.queued.watermarks);
        let data_watermarks = copied(&flow.queued.data_watermarks);
        match self.publish_replica_delta(
            flow.commit_ts,
            flow.remote_ts,
            flow.snapshot,
            flow.has_writes,
            flow.source_partition,
            watermarks,
            data_watermarks,
        ) {
            Ok(committed) => {
                flow.stage = match &committed {
                    Some(_) => DeltaStage::DeleteRedo,
                    None => DeltaStage::Reply,
                };
                flow.committed = committed;
            },
            Err(e) => {
                flow.failure = Some(e);
                flow.stage = DeltaStage::Failed;
            },
        }
    }
}

/// What is done next about a heartbeat of another partition.
#[derive(Clone, Copy, Debug, PartialEq, Eq, Structural)]
pub enum HeartbeatStage {
    /// Record how far other partitions can be read.
    RecordFrontiers,
    /// Wait until everything queued before has been taken in.
    AwaitTurn,
    /// Record up to where deltas have been received.
    RecordWatermarks,
    /// Let readers see it.
    Publish,
    /// Tell whoever sent it.
    Reply,
    /// The committer cannot go on.
    Failed,
}

/// A heartbeat on its way to readers.
#[derive(Debug)]
pub struct HeartbeatFlow {
    pub commit_id: usize,
    pub commit_ts: u64,
    pub source_partition: PartitionId,
    pub frontiers: BTreeMap<u32, u64>,
    pub watermarks: BTreeMap<u32, u64>,
    pub stage: HeartbeatStage,
    /// Set where the stage is [`HeartbeatStage::Failed`]. Where that comes before
    /// the heartbeat's turn, [`Committer::take_in`] gets it in place of the heartbeat.
    pub failure: Option<CommitError>,
}

/// What comes after `stage`, given whether it is done.
pub open spec fn heartbeat_turn(stage: HeartbeatStage, ok: bool) -> HeartbeatStage {
    match stage {
        HeartbeatStage::RecordFrontiers => if ok {
            HeartbeatStage::AwaitTurn
        } else {
            HeartbeatStage::Failed
        },
        HeartbeatStage::RecordWatermarks => if ok {
            HeartbeatStage::Publish
        } else {
            HeartbeatStage::Failed
        },
        _ => stage,
    }
}

impl HeartbeatFlow {
    /// The failure, as contracts speak of it.
    pub open spec fn refusal(self) -> Option<Refusal> {
        match self.failure {
            Some(e) => Some(e@),
            None => None,
        }
    }

    /// Begins with a heartbeat that has been queued.
    pub fn start(
        commit_id: usize,
        commit_ts: u64,
        source_partition: PartitionId,
        frontiers: BTreeMap<u32, u64>,
        watermarks: BTreeMap<u32, u64>,
    ) -> (r: Self)
        ensures
            r == (HeartbeatFlow {
                commit_id,
                commit_ts,
                source_partition,
                frontiers,
                watermarks,
                stage: HeartbeatStage::RecordFrontiers,
                failure: None,
            }),
    {
        HeartbeatFlow {
            commit_id,
            commit_ts,
            source_partition,
            frontiers,
            watermarks,
            stage: HeartbeatStage::RecordFrontiers,
            failure: None,
        }
    }

    /// Goes on, given how the current stage went.
    pub fn advance(&mut self, result: Result<(), CommitError>)
        ensures
            *final(self) == (HeartbeatFlow {
                stage: final(self).stage,
                failure: final(self).failure,
                ..*old(self)
            }),
            final(self).stage == heartbeat_turn(old(self).stage, result is Ok),
            final(self).refusal() == match (old(self).stage, result) {
                (HeartbeatStage::RecordFrontiers, Err(e)) => Some(e@),
                (HeartbeatStage::RecordWatermarks, Err(e)) => Some(e@),
                _ => old(self).refusal(),
            },
    {
        match (self.stage, result) {
            (HeartbeatStage::RecordFrontiers, Ok(())) => {
                self.stage = HeartbeatStage::AwaitTurn;
            },
            (HeartbeatStage::RecordFrontiers, Err(e)) => {
                self.failure = Some(e);
                self.stage = HeartbeatStage::Failed;
            },
            (HeartbeatStage::RecordWatermarks, Ok(())) => {
                self.stage = HeartbeatStage::Publish;
            },
            (HeartbeatStage::RecordWatermarks, Err(e)) => {
                self.failure = Some(e);
                self.stage = HeartbeatStage::Failed;
            },
            _ => {},
        }
    }

    /// Goes on when it is the heartbeat's turn.
    pub fn take_turn(&mut self)
        requires
            old(self).stage == HeartbeatStage::AwaitTurn,
        ensures
            *final(self) == (HeartbeatFlow {
                stage: HeartbeatStage::RecordWatermarks,
                ..*old(self)
            }),
    {
        self.stage = HeartbeatStage::RecordWatermarks;
    }
}

impl Committer {
    /// Lets readers see a heartbeat, once all that goes before has been written.
    pub fn publish_heartbeat(&mut self, flow: &mut HeartbeatFlow)
        requires
            old(flow).stage == HeartbeatStage::Publish,
        ensures
            *final(flow) == (HeartbeatFlow { stage: HeartbeatStage::Reply, ..*old(flow) }),
            final(self)@ == old(self)@.heartbeat_visible(
                old(flow).commit_ts,
                old(flow).source_partition,
                old(flow).watermarks@,
            ),
    {
        let watermarks = super::copy_timestamps(&flow.watermarks);
        self.publish_frontier_heartbeat(flow.commit_ts, flow.source_partition, watermarks);
        flow.stage = HeartbeatStage::Reply;
    }
}

/// What is still to be written before readers may see a delta.
pub open spec fn owed(stage: DeltaStage, has_source: bool, records_outbox: bool) -> Seq<DeltaStage> {
    let outbox = if records_outbox {
        seq![DeltaStage::RecordOutbox]
    } else {
        Seq::<DeltaStage>::empty()
    };
    let records = if has_source {
        seq![DeltaStage::RecordWatermarks, DeltaStage::RecordDataWatermarks] + outbox
    } else {
        outbox
    };
    let frontiers = if has_source {
        seq![DeltaStage::RecordFrontiers] + records
    } else {
        records
    };
    match stage {
        DeltaStage::WriteRows => seq![DeltaStage::WriteRows, DeltaStage::RecordRepeatable]
            + frontiers,
        DeltaStage::RecordRepeatable => seq![DeltaStage::RecordRepeatable] + frontiers,
        DeltaStage::RecordFrontiers => seq![DeltaStage::RecordFrontiers] + records,
        DeltaStage::AwaitTurn => records,
        DeltaStage::RecordWatermarks => seq![
            DeltaStage::RecordWatermarks,
            DeltaStage::RecordDataWatermarks,
        ] + outbox,
        DeltaStage::RecordDataWatermarks => seq![DeltaStage::RecordDataWatermarks] + outbox,
        DeltaStage::RecordOutbox => seq![DeltaStage::RecordOutbox],
        _ => Seq::empty(),
    }
}

/// Whatever is owed before readers may see a delta is written, in this order: a
/// delta starts out with all of it, only a stage that is done is taken off, and
/// where readers see the delta nothing is left.
pub proof fn deltas_are_recorded_before_they_are_seen(
    stage: DeltaStage,
    has_source: bool,
    records_outbox: bool,
)
    ensures
        stage is WriteRows || stage is RecordRepeatable || stage is RecordFrontiers
            || stage is RecordWatermarks || stage is RecordDataWatermarks || stage is RecordOutbox ==> {
            &&& owed(stage, has_source, records_outbox).len() > 0
            &&& owed(stage, has_source, records_outbox)[0] == stage
            &&& owed(
                delta_turn(stage, has_source, records_outbox, true),
                has_source,
                records_outbox,
            ) == owed(stage, has_source, records_outbox).skip(1)
        },
        owed(first_record(has_source, records_outbox), has_source, records_outbox) == owed(
            DeltaStage::AwaitTurn,
            has_source,
            records_outbox,
        ),
        owed(DeltaStage::WriteRows, true, true) == seq![
            DeltaStage::WriteRows,
            DeltaStage::RecordRepeatable,
            DeltaStage::RecordFrontiers,
            DeltaStage::RecordWatermarks,
            DeltaStage::RecordDataWatermarks,
            DeltaStage::RecordOutbox,
        ],
        owed(DeltaStage::Publish, has_source, records_outbox).len() == 0,
{
}

/// A delta that cannot be recorded stops the committer; readers never see it.
pub proof fn unrecorded_deltas_are_never_seen(stage: DeltaStage, has_source: bool, records_outbox: bool)
    requires
        stage is WriteRows || stage is RecordRepeatable || stage is RecordFrontiers
            || stage is RecordWatermarks || stage is RecordDataWatermarks || stage is RecordOutbox,
    ensures
        delta_turn(stage, has_source, records_outbox, false) == DeltaStage::Failed,
        delta_turn(DeltaStage::Failed, has_source, records_outbox, true) == DeltaStage::Failed,
        delta_turn(DeltaStage::Failed, has_source, records_outbox, false) == DeltaStage::Failed,
{
}

/// A delta goes through its stages in one order: its rows, the repeatable timestamp,
/// where it has a source how far that has come, its turn, where it has a source what
/// has been received of it, the outbox where it is recorded there, and only then its
/// readers. Anything that cannot be recorded ends it.
pub proof fn deltas_go_through_their_stages_in_order(has_source: bool, records_outbox: bool)
    ensures
        ({
            let next = |stage: DeltaStage| delta_turn(stage, has_source, records_outbox, true);
            let stopped = |stage: DeltaStage| delta_turn(stage, has_source, records_outbox, false);
            &&& next(DeltaStage::WriteRows) == DeltaStage::RecordRepeatable
            &&& has_source ==> next(DeltaStage::RecordRepeatable) == DeltaStage::RecordFrontiers
            &&& !has_source ==> next(DeltaStage::RecordRepeatable) == DeltaStage::AwaitTurn
            &&& next(DeltaStage::RecordFrontiers) == DeltaStage::AwaitTurn
            &&& has_source ==> first_record(has_source, records_outbox)
                == DeltaStage::RecordWatermarks
            &&& !has_source && records_outbox ==> first_record(has_source, records_outbox)
                == DeltaStage::RecordOutbox
            &&& !has_source && !records_outbox ==> first_record(has_source, records_outbox)
                == DeltaStage::Publish
            &&& next(DeltaStage::RecordWatermarks) == DeltaStage::RecordDataWatermarks
            &&& records_outbox ==> next(DeltaStage::RecordDataWatermarks)
                == DeltaStage::RecordOutbox
            &&& !records_outbox ==> next(DeltaStage::RecordDataWatermarks) == DeltaStage::Publish
            &&& next(DeltaStage::RecordOutbox) == DeltaStage::Publish
            &&& next(DeltaStage::DeleteRedo) == DeltaStage::Reply
            &&& stopped(DeltaStage::DeleteRedo) == DeltaStage::Reply
            &&& stopped(DeltaStage::WriteRows) == DeltaStage::Failed
            &&& stopped(DeltaStage::RecordRepeatable) == DeltaStage::Failed
            &&& stopped(DeltaStage::RecordFrontiers) == DeltaStage::Failed
            &&& stopped(DeltaStage::RecordWatermarks) == DeltaStage::Failed
            &&& stopped(DeltaStage::RecordDataWatermarks) == DeltaStage::Failed
            &&& stopped(DeltaStage::RecordOutbox) == DeltaStage::Failed
        }),
{
}

/// A heartbeat goes through its stages in one order too, and ends where something
/// cannot be recorded.
pub proof fn heartbeats_go_through_their_stages_in_order(stage: HeartbeatStage, ok: bool)
    ensures
        heartbeat_turn(HeartbeatStage::RecordFrontiers, true) == HeartbeatStage::AwaitTurn,
        heartbeat_turn(HeartbeatStage::RecordWatermarks, true) == HeartbeatStage::Publish,
        heartbeat_turn(stage, ok) == HeartbeatStage::Publish && stage != HeartbeatStage::Publish
            ==> stage == HeartbeatStage::RecordWatermarks && ok,
        stage != HeartbeatStage::Failed ==> (heartbeat_turn(stage, ok) == HeartbeatStage::Failed
            <==> !ok && (stage == HeartbeatStage::RecordFrontiers || stage
            == HeartbeatStage::RecordWatermarks)),
        stage != HeartbeatStage::RecordFrontiers && stage != HeartbeatStage::RecordWatermarks
            ==> heartbeat_turn(stage, ok) == stage,
{
}

/// Once a delta can be seen, its snapshot is the latest one at its timestamp, what
/// was recorded as received is what counts as received, its source can be read up
/// to it, and what is prepared, pending or queued is as it was.
pub proof fn visible_deltas_are_the_latest(state: CommitterState, flow: DeltaFlow)
    ensures
        ({
            let after = state.delta_visible(flow);
            &&& after.latest_ts == flow.commit_ts
            &&& after.latest_snapshot == flow.snapshot
            &&& flow.has_writes ==> after.log_max_ts == flow.commit_ts
            &&& !flow.has_writes ==> after.log_max_ts == state.log_max_ts
            &&& flow.queued.watermarks matches Some(m) ==> after.watermarks == m@
            &&& flow.queued.watermarks is None ==> after.watermarks == state.watermarks
            &&& flow.queued.data_watermarks matches Some(m) ==> after.data_watermarks == m@
            &&& flow.queued.data_watermarks is None ==> after.data_watermarks
                == state.data_watermarks
            &&& flow.source_partition matches Some(p) ==> after.frontiers.contains_key(p.0)
                && after.frontiers[p.0] >= flow.commit_ts && after.write_frontiers.contains_key(p.0)
                && after.write_frontiers[p.0] >= flow.commit_ts
            &&& flow.source_partition is None ==> after.frontiers == state.frontiers
                && after.write_frontiers == state.write_frontiers
            &&& after.prepared == state.prepared
            &&& after.pending == state.pending
            &&& after.queued == state.queued
            &&& after.last_assigned_ts == state.last_assigned_ts
            &&& after.max_repeatable_ts == state.max_repeatable_ts
        }),
{
}

/// A delta stays the same through its stages: all that changes is the stage and what
/// went wrong.
pub proof fn deltas_stay_the_same(a: DeltaFlow, b: DeltaFlow)
    requires
        a.same_delta(b),
    ensures
        a.commit_id == b.commit_id,
        a.commit_ts == b.commit_ts,
        a.remote_ts == b.remote_ts,
        a.source_partition == b.source_partition,
        a.snapshot == b.snapshot,
        a.has_writes == b.has_writes,
        a.queued == b.queued,
        a.committed == b.committed,
{
}

} // verus!
