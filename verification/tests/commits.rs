use std::collections::BTreeMap;
use std::sync::Arc;

use convex_cluster::committer::checked::CheckedStage;
use convex_cluster::committer::delta::CommitDelta;
use convex_cluster::committer::flow::{CommitStart, PrepareEvent, PrepareFlow, PrepareStage};
use convex_cluster::committer::go::{Aftermath, CompletedWrite};
use convex_cluster::committer::participant::ParticipantStage;
use convex_cluster::committer::prepared::{
    delete_two_phase_redo, persist_two_phase_redo, recover_two_phase_redo_record, stage_failure,
    ParticipantTransaction, Recovery, RedoUse, Rollback, TwoPhaseRedoEntry,
};
use convex_cluster::committer::publish::{CommitPath, PublishFlow, PublishStage, TableSummary};
use convex_cluster::committer::raft::RaftAnswer;
use convex_cluster::committer::staging::{
    commit_has_conflict, ComputedWrites, FinalTransaction, IndexWrite, PreparePlan, PrepareResult,
    PrepareTimes, WriteEffect,
};
use convex_cluster::committer::write::{WriteEvent, WriteFailure, WriteFlow, WriteStage};
use convex_cluster::committer::{
    CommitError, CommitOutcome, Committer, RaftState, SnapshotId, MAX_TIMESTAMP,
};
use convex_cluster::documents::{
    Content, Document, DocumentId, DocumentWrite, IndexEntry, Namespace, ReadSet, StoredId,
    TableInfo, TableMapping,
};
use convex_cluster::metrics::{
    user_documents_size_subgauge, Amount, MetricsRecorder, WriteSize,
};
use convex_cluster::names::{TableName, TabletId, WriteSource};
use convex_cluster::partition::{
    PartitionId, PlacementMetadata, PlacementVersion, StaticPlacementConfig,
};
use convex_cluster::placement::PlacementState;
use convex_cluster::text_map::TextMap;

fn info(tablet: u128, name: &str) -> TableInfo {
    TableInfo {
        tablet: TabletId(tablet),
        namespace: Namespace::Global,
        number: 10_000,
        name: Arc::new(TableName::parse(name).unwrap()),
        active: true,
    }
}

/// Tablet 1 is `messages`, which partition 1 owns; tablet 2 is `projects`, which
/// partition 2 owns; tablet 3 is `_modules`.
fn mapping() -> TableMapping {
    TableMapping {
        tables: vec![info(1, "messages"), info(2, "projects"), info(3, "_modules")],
    }
}

fn placement(local: u32) -> PlacementState {
    let metadata = PlacementMetadata::from_static_config(StaticPlacementConfig {
        table_assignments: "messages=1,projects=2",
        num_partitions: 3,
        placement_version: PlacementVersion::new(1),
    });
    PlacementState::new(PartitionId(local), metadata).unwrap()
}

fn committer(placement: Option<PlacementState>, raft: Option<RaftState>) -> Committer {
    Committer::new(
        100,
        100,
        SnapshotId(1),
        90,
        false,
        placement,
        raft,
        BTreeMap::new(),
        BTreeMap::new(),
        BTreeMap::new(),
    )
}

fn leader(is_leader: bool) -> RaftState {
    RaftState {
        partition: PartitionId(1),
        node_id: 4,
        is_leader,
        leader_id: 5,
    }
}

fn write_to(tablet: u128, internal: u128) -> DocumentWrite {
    let id = DocumentId {
        tablet: TabletId(tablet),
        number: 10_000,
        internal,
    };
    DocumentWrite {
        id,
        old_document: None,
        new_document: Some(Arc::new(Document {
            id,
            creation_time: 1,
            size: 20,
            content: Content::Data(Arc::new(vec![1])),
        })),
    }
}

fn transaction(begin_ts: u64, read: &[u128], written: &[u128]) -> FinalTransaction {
    FinalTransaction {
        begin_ts,
        reads: ReadSet {
            indexed: read.iter().map(|t| TabletId(*t)).collect(),
            search: Vec::new(),
        },
        writes: written.iter().map(|t| write_to(*t, 7)).collect(),
        table_mapping: mapping(),
    }
}

fn computed(snapshot: u64) -> ComputedWrites {
    ComputedWrites {
        effects: vec![WriteEffect {
            entry_bytes: 30,
            vector_bytes: 0,
            text_bytes: 0,
        }],
        index_writes: vec![IndexWrite {
            entry: IndexEntry {
                ts: 101,
                index_id: 50,
                key: Arc::new(vec![9]),
                value: Some(StoredId {
                    tablet: TabletId(1),
                    internal: 7,
                }),
            },
            entry_bytes: 12,
            key_bytes: 1,
            is_system_index: false,
            document: Some(TabletId(1)),
        }],
        snapshot: SnapshotId(snapshot),
    }
}

fn source() -> WriteSource {
    WriteSource::new("mutation")
}

/// Commits a write of tablet 1 at the timestamp that is drawn.
fn stage(committer: &mut Committer, drawn: u64, snapshot: u64, commit_id: usize) -> CommitDelta {
    let mut metrics = MetricsRecorder::new();
    let txn = transaction(100, &[1], &[1]);
    let mut checked = committer
        .validate_commit(&mut metrics, &txn, &source())
        .unwrap();
    committer.assign_commit(&mut checked, Ok(drawn)).unwrap();
    checked.order_writes(Ok(None)).unwrap();
    let validated = committer
        .stage_commit(&checked, Ok(computed(snapshot)))
        .unwrap();
    committer.queue_commit(&validated, &mapping(), commit_id)
}

#[test]
fn commits_are_staged_queued_and_published() {
    let mut committer = committer(Some(placement(1)), None);
    let delta = stage(&mut committer, 150, 2, 0);
    assert_eq!(delta.ts, 150);
    assert_eq!(delta.write_bytes, 42);
    assert_eq!(delta.source_partition, Some(PartitionId(1)));
    assert_eq!(delta.document_writes.len(), 1);
    assert_eq!(delta.tables[&1].as_str(), "messages");
    // Nobody reads the commit yet, but the next one builds on it.
    assert_eq!(committer.latest_ts, 100);
    assert_eq!(committer.base_snapshot_for_new_writes(), SnapshotId(2));

    let mut metrics = MetricsRecorder::new();
    let mut gauge = user_documents_size_subgauge();
    let summary = TableSummary {
        num_user_documents: 3,
        user_tables_size: 200,
        user_docs_size: 60,
    };
    let aftermath = committer.take_in(
        &mut metrics,
        &mut gauge,
        Ok(CompletedWrite::Commit {
            commit_id: 0,
            commit_ts: 150,
            delta: Arc::new(delta),
            raft_applied_index: None,
            summary: Some(summary),
        }),
    );
    match aftermath {
        Aftermath::Tell(flow) => {
            assert_eq!(flow.stage, PublishStage::RecordOutbox);
            assert_eq!(
                flow.reply(),
                CommitOutcome {
                    ts: 150,
                    source_partition: Some(PartitionId(1))
                }
            );
        }
        other => panic!("unexpected {other:?}"),
    }
    assert_eq!(committer.latest_ts, 150);
    assert_eq!(committer.latest_snapshot, SnapshotId(2));
    assert!(committer.pending.is_empty());
    assert!(committer.queued.is_empty());
    let samples = metrics.drain();
    assert_eq!(samples.len(), 5);
    assert_eq!(samples[0].metric, "DATABASE_COMMIT_ROWS");
    assert_eq!(samples[0].amount, Amount::Count(1));
    assert_eq!(samples[1].amount, Amount::Count(42));
    assert_eq!(samples[4].amount, Amount::Count(60));
}

#[test]
fn timestamps_are_after_everything_before_them() {
    let mut committer = committer(None, None);
    // The clock is behind.
    assert_eq!(committer.next_commit_ts(Ok(5)).unwrap(), 101);
    // The clock has not moved since.
    assert_eq!(committer.next_commit_ts(Ok(5)).unwrap(), 102);
    assert_eq!(committer.next_commit_ts(Ok(500)).unwrap(), 500);
    assert_eq!(
        committer
            .next_commit_ts(Err(CommitError::new("no oracle".to_string())))
            .unwrap_err()
            .message,
        "no oracle"
    );
    committer.latest_ts = MAX_TIMESTAMP;
    assert!(committer.next_commit_ts(Ok(5)).is_err());
}

#[test]
fn repeatable_timestamps_stay_before_pending_commits() {
    let mut committer = committer(None, None);
    stage(&mut committer, 150, 2, 0);
    assert_eq!(committer.min_pending_ts(), Some(150));
    assert_eq!(committer.next_max_repeatable_ts(Ok(900)).unwrap(), 149);
}

#[test]
fn readonly_transactions_are_done_as_they_begin() {
    let committer = committer(Some(placement(2)), None);
    let mut metrics = MetricsRecorder::new();
    let none = WriteSize {
        num_writes: 0,
        size: 0,
    };
    assert_eq!(
        committer.start_commit(&mut metrics, &transaction(77, &[1], &[]), 3, none, none),
        CommitStart::Readonly(CommitOutcome {
            ts: 77,
            source_partition: Some(PartitionId(2))
        })
    );
    assert!(metrics.drain().is_empty());
    assert_eq!(
        committer.start_commit(&mut metrics, &transaction(77, &[1], &[2]), 3, none, none),
        CommitStart::Write
    );
    assert_eq!(metrics.drain().len(), 7);
}

#[test]
fn only_the_owner_commits() {
    let mut metrics = MetricsRecorder::new();
    let other = committer(Some(placement(2)), None);
    let err = other
        .validate_commit(&mut metrics, &transaction(100, &[], &[1]), &source())
        .unwrap_err();
    assert!(err.message.contains("messages"), "{}", err.message);
    assert_eq!(other.last_assigned_ts, 0);
}

#[test]
fn only_the_leader_commits() {
    let mut metrics = MetricsRecorder::new();
    let follower = committer(Some(placement(1)), Some(leader(false)));
    assert!(follower
        .validate_commit(&mut metrics, &transaction(100, &[], &[1]), &source())
        .is_err());
    assert_eq!(
        metrics.drain()[0].metric,
        "DATABASE_WRITE_REJECTED_NOT_LEADER_TOTAL"
    );
    let leader = committer(Some(placement(1)), Some(leader(true)));
    assert!(leader
        .validate_commit(&mut metrics, &transaction(100, &[], &[1]), &source())
        .is_ok());
}

#[test]
fn reads_of_other_partitions_must_have_arrived() {
    let mut metrics = MetricsRecorder::new();
    let mut node = committer(Some(placement(1)), None);
    node.frontiers.insert(2, 99);
    let txn = transaction(100, &[2], &[1]);
    assert!(node
        .validate_commit(&mut metrics, &txn, &source())
        .is_err());
    node.frontiers.insert(2, 100);
    let mut checked = node
        .validate_commit(&mut metrics, &txn, &source())
        .unwrap();
    // Nothing is assigned before everything has been checked.
    assert_eq!(checked.stage, CheckedStage::Assign);
    assert_eq!(node.last_assigned_ts, 0);
    node.assign_commit(&mut checked, Ok(150)).unwrap();
    assert_eq!(
        checked.stage,
        CheckedStage::CheckReads(PrepareTimes {
            origin_ts: 150,
            commit_ts: 150,
            conflict_begin_ts: 100
        })
    );
    assert_eq!(node.last_assigned_ts, 150);

    let mut checked = node
        .validate_commit(&mut metrics, &txn, &source())
        .unwrap();
    let err = node
        .assign_commit(&mut checked, Err(CommitError::new("no oracle".to_string())))
        .unwrap_err();
    assert_eq!(err.message, "no oracle");
    assert_eq!(checked.stage, CheckedStage::Failed);
}

#[test]
fn conflicts_are_looked_for_in_order() {
    let conflict = |s: &str| Ok(Some(CommitError::new(s.to_string())));
    let found = |r: Result<Option<CommitError>, CommitError>| r.unwrap().map(|e| e.message);
    assert_eq!(
        found(commit_has_conflict(
            conflict("log"),
            conflict("pending"),
            conflict("prepared")
        )),
        Some("log".to_string())
    );
    assert_eq!(
        found(commit_has_conflict(Ok(None), Ok(None), conflict("prepared"))),
        Some("prepared".to_string())
    );
    assert_eq!(found(commit_has_conflict(Ok(None), Ok(None), Ok(None))), None);
    assert!(commit_has_conflict(
        Ok(None),
        Err(CommitError::new("lost".to_string())),
        conflict("prepared")
    )
    .is_err());
}

#[test]
fn conflicting_commits_leave_no_trace() {
    let mut metrics = MetricsRecorder::new();
    let mut node = committer(None, None);
    let txn = transaction(100, &[], &[1]);
    let mut checked = node
        .validate_commit(&mut metrics, &txn, &source())
        .unwrap();
    node.assign_commit(&mut checked, Ok(150)).unwrap();
    let err = checked
        .order_writes(Ok(Some(CommitError::new("conflict".to_string()))))
        .unwrap_err();
    assert_eq!(err.message, "conflict");
    assert_eq!(checked.stage, CheckedStage::Failed);
    assert!(node.pending.is_empty());

    let mut checked = node
        .validate_commit(&mut metrics, &txn, &source())
        .unwrap();
    node.assign_commit(&mut checked, Ok(151)).unwrap();
    checked.order_writes(Ok(None)).unwrap();
    assert!(node
        .stage_commit(&checked, Err(CommitError::new("index".to_string())))
        .is_err());
    assert!(node.pending.is_empty());
}

#[test]
fn writes_are_staged_in_the_order_they_depend_on() {
    let mut metrics = MetricsRecorder::new();
    let mut node = committer(None, None);
    let mut txn = transaction(100, &[], &[2, 1]);
    txn.table_mapping.tables.push(info(8, "_tables"));
    txn.table_mapping.tables.push(info(9, "_index"));
    // An index that goes comes first.
    txn.writes.push(DocumentWrite {
        new_document: None,
        ..write_to(9, 3)
    });
    let mut checked = node
        .validate_commit(&mut metrics, &txn, &source())
        .unwrap();
    node.assign_commit(&mut checked, Ok(150)).unwrap();
    checked.order_writes(Ok(None)).unwrap();
    let tablets = |writes: &[DocumentWrite]| -> Vec<u128> {
        writes.iter().map(|w| w.id.tablet.0).collect()
    };
    assert_eq!(tablets(&checked.writes), vec![2, 1, 9]);
    assert_eq!(tablets(&checked.ordered), vec![9, 1, 2]);
    let mut three = computed(2);
    three.effects = vec![three.effects[0]; 3];
    let validated = node.stage_commit(&checked, Ok(three)).unwrap();
    let staged: Vec<u128> = node.pending[0]
        .updates
        .iter()
        .map(|u| u.id.tablet.0)
        .collect();
    assert_eq!(staged, vec![9, 1, 2]);
    assert_eq!(validated.document_writes[0].id.tablet, TabletId(9));
}

/// Prepares a write of tablet 1.
fn prepare(node: &mut Committer, id: &str, ts: u64) -> PrepareFlow {
    let mut metrics = MetricsRecorder::new();
    let txn = transaction(100, &[], &[1]);
    let mut checked = node
        .plan_prepare(
            &mut metrics,
            id,
            100,
            &txn.reads,
            &txn.writes,
            &txn.table_mapping,
            &source(),
            Some(ts),
            true,
            false,
        )
        .unwrap();
    assert_eq!(
        checked.plan,
        PreparePlan::At {
            origin_ts: ts,
            commit_ts: ts
        }
    );
    node.assign_prepare(&mut checked, Ok(0)).unwrap();
    assert_eq!(
        checked.transaction.stage,
        CheckedStage::CheckReads(PrepareTimes {
            origin_ts: ts,
            commit_ts: ts,
            conflict_begin_ts: 100
        })
    );
    checked.transaction.order_writes(Ok(None)).unwrap();
    let result = node
        .stage_prepared_transaction(&checked, Ok(computed(3)))
        .unwrap();
    PrepareFlow::start(id, result)
}

#[test]
fn prepared_transactions_commit() {
    let mut node = committer(Some(placement(1)), Some(leader(true)));
    let mut flow = prepare(&mut node, "txn", 200);
    node.handle_prepare(&mut flow, PrepareEvent::Done(Ok(())));
    assert_eq!(flow.stage, PrepareStage::Replicate);
    node.handle_prepare(
        &mut flow,
        PrepareEvent::Answered(RaftAnswer::Committed { index: 6 }),
    );
    assert_eq!(flow.stage, PrepareStage::MarkApplied(6));
    node.handle_prepare(&mut flow, PrepareEvent::Done(Ok(())));
    assert_eq!(flow.stage, PrepareStage::Reply);
    assert_eq!(flow.prepare_ts, 200);

    // No commit gets past a transaction in doubt.
    let mut metrics = MetricsRecorder::new();
    let err = node
        .validate_commit(&mut metrics, &transaction(100, &[], &[1]), &source())
        .unwrap_err();
    assert_eq!(
        err.message,
        "Commit blocked by 1 unresolved 2PC prepared transaction(s); retry after the prepared \
         transaction commits or rolls back"
    );
    let occ = err.occ.unwrap();
    assert_eq!(occ.ts, Some(100));
    assert_eq!(occ.source.as_deref(), Some("mutation"));

    let mut flow = node.handle_commit_prepared("txn", &mapping()).unwrap();
    assert_eq!(flow.stage, ParticipantStage::Propose);
    assert_eq!(flow.delta.ts, 200);
    assert_eq!(flow.delta.write_bytes, 42);
    flow.advance(WriteEvent::Proposed(Ok(())));
    assert_eq!(flow.stage, ParticipantStage::AwaitRaft);
    assert!(flow.timer(true).is_some());
    assert!(flow.timer(false).is_none());
    flow.advance(WriteEvent::Answered(RaftAnswer::Committed { index: 7 }));
    assert_eq!(
        flow.stage,
        ParticipantStage::Persist {
            raft_applied_index: Some(7)
        }
    );
    assert!(flow.timer(true).is_some());
    flow.advance(WriteEvent::Written);
    assert_eq!(
        flow.stage,
        ParticipantStage::Publish {
            raft_applied_index: Some(7)
        }
    );
    // The transaction stays prepared until readers see it.
    assert_eq!(node.prepared.len(), 1);
    let mut again = node.handle_commit_prepared("txn", &mapping()).unwrap();
    let mut gauge = user_documents_size_subgauge();
    let telling = node
        .publish_prepared(&mut metrics, &mut gauge, &mut flow, None)
        .unwrap();
    assert_eq!(flow.stage, ParticipantStage::Published);
    assert_eq!(telling.stage, PublishStage::MarkApplied(7));
    assert_eq!(telling.commit_ts, 200);
    assert!(node.prepared.is_empty());
    assert_eq!(node.latest_ts, 200);
    assert_eq!(node.latest_snapshot, SnapshotId(3));

    assert_eq!(
        node.handle_commit_prepared("txn", &mapping())
            .unwrap_err()
            .message,
        "2PC CommitPrepared: unknown transaction txn"
    );
    again.advance(WriteEvent::Proposed(Ok(())));
    again.advance(WriteEvent::Answered(RaftAnswer::NotReplicated));
    again.advance(WriteEvent::Written);
    assert_eq!(
        node.publish_prepared(&mut metrics, &mut gauge, &mut again, None)
            .unwrap_err()
            .message,
        "2PC CommitPrepared: unknown transaction txn"
    );
    assert_eq!(again.stage, ParticipantStage::Failed);
}

#[test]
fn prepared_commits_that_fail_stay_prepared() {
    let mut node = committer(Some(placement(1)), Some(leader(true)));
    let _ = prepare(&mut node, "txn", 200);
    let broken = || CommitError::new("no".to_string());

    let mut flow = node.handle_commit_prepared("txn", &mapping()).unwrap();
    flow.advance(WriteEvent::Proposed(Err(broken())));
    assert_eq!(flow.stage, ParticipantStage::Failed);
    assert_eq!(flow.failure.unwrap().message, "no");

    // Nothing is tried again, whatever the failure.
    for failure in [
        WriteFailure::TimedOut,
        WriteFailure::Operational,
        WriteFailure::Other,
    ] {
        let mut flow = node.handle_commit_prepared("txn", &mapping()).unwrap();
        flow.advance(WriteEvent::Proposed(Ok(())));
        // Out of turn: nothing happens.
        flow.advance(WriteEvent::Written);
        assert_eq!(flow.stage, ParticipantStage::AwaitRaft);
        flow.advance(WriteEvent::Answered(RaftAnswer::NotReplicated));
        flow.advance(WriteEvent::Failed(failure, broken()));
        assert_eq!(flow.stage, ParticipantStage::Failed);
        assert_eq!(flow.failure.as_ref().unwrap().message, "no");
        flow.advance(WriteEvent::Written);
        assert_eq!(flow.stage, ParticipantStage::Failed);
    }
    assert_eq!(node.prepared.len(), 1);
    assert_eq!(node.latest_ts, 100);
}

#[test]
fn rolled_back_transactions_leave_no_trace() {
    let mut node = committer(Some(placement(1)), None);
    prepare(&mut node, "txn", 200);
    assert_eq!(
        node.handle_rollback_prepared("txn", true).unwrap(),
        Rollback::Removed
    );
    assert!(node.prepared.is_empty());
    assert_eq!(
        node.handle_rollback_prepared("txn", true).unwrap(),
        Rollback::OnlyDurable
    );
    assert!(node
        .handle_rollback_prepared("txn", false)
        .unwrap_err()
        .message
        .contains("unknown transaction"));
}

#[test]
fn prepares_are_idempotent_and_ordered() {
    let mut metrics = MetricsRecorder::new();
    let mut node = committer(Some(placement(1)), None);
    let txn = transaction(100, &[], &[1]);
    let mut plan = |node: &Committer, ts: Option<u64>, rewrite: bool| {
        node.plan_prepare(
            &mut metrics,
            "txn",
            100,
            &txn.reads,
            &txn.writes,
            &txn.table_mapping,
            &source(),
            ts,
            true,
            rewrite,
        )
    };
    assert_eq!(plan(&node, None, false).unwrap().plan, PreparePlan::Draw);
    assert_eq!(
        plan(&node, Some(50), false).unwrap_err().message,
        "2PC Prepare assigned ts=50 but this participant requires ts>=101"
    );
    assert_eq!(
        plan(&node, Some(50), true).unwrap().plan,
        PreparePlan::At {
            origin_ts: 50,
            commit_ts: 101
        }
    );
    prepare(&mut node, "txn", 200);
    assert_eq!(
        plan(&node, Some(200), false).unwrap().plan,
        PreparePlan::AlreadyPrepared { prepare_ts: 200 }
    );
    assert_eq!(
        plan(&node, Some(201), false).unwrap_err().message,
        "2PC Prepare retried with a different commit timestamp for txn"
    );
}

#[test]
fn prepares_wait_for_pending_commits() {
    let mut node = committer(Some(placement(1)), None);
    stage(&mut node, 150, 2, 0);
    let mut metrics = MetricsRecorder::new();
    let txn = transaction(100, &[], &[1]);
    let err = node
        .plan_prepare(
            &mut metrics,
            "txn",
            100,
            &txn.reads,
            &txn.writes,
            &txn.table_mapping,
            &source(),
            Some(200),
            true,
            false,
        )
        .unwrap_err();
    assert_eq!(
        err.message,
        "2PC Prepare for txn=txn blocked by an unresolved pending write at ts=150; retry after \
         the pending write publishes"
    );
    assert!(err.occ.is_some());
}

#[test]
fn replayed_prepares_are_checked_from_just_before_their_timestamp() {
    let mut node = committer(Some(placement(1)), None);
    let txn = transaction(40, &[], &[1]);
    let mut checked = node
        .plan_prepare(
            &mut MetricsRecorder::new(),
            "txn",
            40,
            &txn.reads,
            &txn.writes,
            &txn.table_mapping,
            &source(),
            Some(50),
            false,
            true,
        )
        .unwrap();
    node.assign_prepare(&mut checked, Ok(0)).unwrap();
    assert_eq!(
        checked.transaction.stage,
        CheckedStage::CheckReads(PrepareTimes {
            origin_ts: 50,
            commit_ts: 101,
            conflict_begin_ts: 100
        })
    );
    assert_eq!(node.last_assigned_ts, 101);
}

#[test]
fn failed_prepares_are_taken_back() {
    // The redo record could not be written.
    let mut node = committer(Some(placement(1)), Some(leader(true)));
    let mut flow = prepare(&mut node, "txn", 200);
    node.handle_prepare(
        &mut flow,
        PrepareEvent::Done(Err(CommitError::new("disk".to_string()))),
    );
    assert_eq!(flow.stage, PrepareStage::Failed);
    assert_eq!(flow.failure.unwrap().message, "disk");
    assert!(node.prepared.is_empty());

    // Raft turned it down.
    let mut flow = prepare(&mut node, "txn", 201);
    node.handle_prepare(&mut flow, PrepareEvent::Done(Ok(())));
    node.handle_prepare(&mut flow, PrepareEvent::Answered(RaftAnswer::Rejected));
    assert_eq!(flow.stage, PrepareStage::DeleteRedo);
    assert!(node.prepared.is_empty());
    node.handle_prepare(&mut flow, PrepareEvent::Done(Ok(())));
    assert_eq!(flow.stage, PrepareStage::Failed);
    assert_eq!(
        flow.failure.unwrap().message,
        "Raft rejected 2PC prepare for txn=txn at ts=201 before quorum commit"
    );

    // Raft was left before the answer came: the transaction stays prepared.
    let mut flow = prepare(&mut node, "txn", 202);
    node.raft = None;
    node.handle_prepare(&mut flow, PrepareEvent::Done(Ok(())));
    node.handle_prepare(
        &mut flow,
        PrepareEvent::Answered(RaftAnswer::Committed { index: 8 }),
    );
    assert_eq!(flow.stage, PrepareStage::Failed);
    assert_eq!(
        flow.failure.unwrap().message,
        "2PC Prepare txn=txn returned Raft applied index 8 without Raft state"
    );
    assert_eq!(node.prepared.len(), 1);
}

#[test]
fn late_commits_are_not_published() {
    let mut metrics = MetricsRecorder::new();
    let mut gauge = user_documents_size_subgauge();
    let mut node = committer(None, None);
    let delta = stage(&mut node, 150, 2, 0);
    node.latest_ts = 150;
    let err = node
        .publish_commit(&mut metrics, &mut gauge, 150, &delta, None)
        .unwrap_err();
    assert_eq!(
        err.message,
        "Commit at ts=150 can no longer publish because latest snapshot is 150"
    );
    assert!(node.pending.is_empty());
    assert!(metrics.drain().is_empty());

    let mut node = committer(None, None);
    let mut delta = stage(&mut node, 150, 2, 0);
    delta.ts = 151;
    let err = node
        .publish_commit(&mut metrics, &mut gauge, 150, &delta, None)
        .unwrap_err();
    assert_eq!(
        err.message,
        "pending write at ts=150 had Raft delta at ts=151"
    );
    assert_eq!(node.pending.len(), 1);
    let err = node
        .publish_commit_from_updates(
            &mut metrics,
            &mut gauge,
            150,
            1,
            SnapshotId(2),
            151,
            0,
            None,
        )
        .unwrap_err();
    assert_eq!(
        err.message,
        "publish commit called for ts=150 with delta ts=151"
    );
}

#[test]
fn rejected_commits_are_taken_off_and_the_rest_rebased() {
    let mut node = committer(None, None);
    stage(&mut node, 150, 2, 0);
    stage(&mut node, 160, 3, 1);
    let mut metrics = MetricsRecorder::new();
    let mut gauge = user_documents_size_subgauge();
    let aftermath = node.take_in(
        &mut metrics,
        &mut gauge,
        Ok(CompletedWrite::Rejected {
            commit_id: 0,
            commit_ts: 150,
            err: CommitError::new("no quorum".to_string()),
        }),
    );
    assert!(matches!(aftermath, Aftermath::TurnedAway(e) if e.message == "no quorum"));
    assert_eq!(node.pending.len(), 1);
    node.rebase_pending(&vec![SnapshotId(9)]);
    assert_eq!(node.pending[0].snapshot, SnapshotId(9));
    assert_eq!(node.pending[0].ts, 160);
    assert_eq!(
        node.reject_pending(150).unwrap_err().message,
        "pre-persistence rejected commit at ts=150 was not pending"
    );
}

#[test]
fn pending_commits_stay_in_the_order_of_their_timestamps() {
    let mut node = committer(None, None);
    let first = stage(&mut node, 150, 2, 0);
    stage(&mut node, 160, 3, 1);
    // The clock went back, the timestamps do not.
    stage(&mut node, 155, 4, 2);
    stage(&mut node, 200, 5, 3);
    let pending = |node: &Committer| node.pending.iter().map(|p| p.ts).collect::<Vec<_>>();
    assert_eq!(pending(&node), vec![150, 160, 161, 200]);
    assert_eq!(node.last_assigned_ts, 200);
    node.reject_pending(160).unwrap();
    node.rebase_pending(&vec![SnapshotId(2), SnapshotId(6), SnapshotId(7)]);
    assert_eq!(pending(&node), vec![150, 161, 200]);
    let mut metrics = MetricsRecorder::new();
    let mut gauge = user_documents_size_subgauge();
    node.publish_commit(&mut metrics, &mut gauge, 150, &first, None)
        .unwrap();
    assert_eq!(node.latest_ts, 150);
    assert_eq!(pending(&node), vec![161, 200]);
}

#[test]
fn unsure_writes_stop_the_committer() {
    let mut node = committer(None, None);
    let mut metrics = MetricsRecorder::new();
    let mut gauge = user_documents_size_subgauge();
    let aftermath = node.take_in(
        &mut metrics,
        &mut gauge,
        Err(CommitError::new("disk".to_string())),
    );
    assert!(matches!(
        aftermath,
        Aftermath::Fatal(e)
            if e.message == "Write failed. Unsure if transaction committed to disk.: disk"
    ));
}

#[test]
fn others_are_told_of_commits_in_order() {
    let mut flow =
        PublishFlow::start(CommitPath::Participant, 9, Some(PartitionId(1)), Some(4), true);
    let mut stages = vec![flow.stage];
    while flow.stage != PublishStage::Reply {
        flow.advance(Ok(()));
        stages.push(flow.stage);
    }
    assert_eq!(
        stages,
        vec![
            PublishStage::MarkApplied(4),
            PublishStage::RecordOutbox,
            PublishStage::PublishDelta,
            PublishStage::ClearOutbox,
            PublishStage::DeleteRedo,
            PublishStage::Reply,
        ]
    );

    // What is in the outbox can be published later.
    let mut flow = PublishFlow::start(CommitPath::Local, 9, Some(PartitionId(1)), None, false);
    flow.advance(Ok(()));
    flow.advance(Err(CommitError::new("nats".to_string())));
    assert_eq!(flow.stage, PublishStage::Reply);

    let mut flow = PublishFlow::start(CommitPath::Local, 9, None, None, false);
    assert_eq!(flow.stage, PublishStage::PublishDelta);
    flow.advance(Err(CommitError::new("nats".to_string())));
    assert_eq!(flow.stage, PublishStage::Failed);
    assert_eq!(
        flow.failure.unwrap().message,
        "Failed to publish committed write to replication log after local persistence commit at \
         ts=9: Failed to publish commit delta at ts=9: nats"
    );

    let flow = PublishFlow::start(CommitPath::Participant, 9, None, Some(4), false);
    assert_eq!(flow.stage, PublishStage::Failed);
    assert_eq!(
        flow.failure.unwrap().message,
        "Failed to mark Raft applied index for prepared write after local persistence commit at \
         ts=9: prepared commit returned Raft applied index 4 without Raft state"
    );
}

#[test]
fn commits_reach_disk_after_the_quorum() {
    let mut flow = WriteFlow::start(150);
    assert!(flow.advance(WriteEvent::Proposed(Ok(()))).is_none());
    assert_eq!(flow.stage, WriteStage::AwaitRaft);
    assert!(flow
        .advance(WriteEvent::Answered(RaftAnswer::Committed { index: 3 }))
        .is_none());
    // A failure that may pass is waited out.
    assert!(flow
        .advance(WriteEvent::Failed(
            WriteFailure::Operational,
            CommitError::new("busy".to_string())
        ))
        .is_none());
    assert!(flow.advance(WriteEvent::Written).is_none());
    assert_eq!(
        flow.stage,
        WriteStage::Written {
            raft_applied_index: Some(3)
        }
    );

    let mut flow = WriteFlow::start(150);
    flow.advance(WriteEvent::Proposed(Ok(())));
    let err = flow
        .advance(WriteEvent::Answered(RaftAnswer::Rejected))
        .unwrap();
    assert_eq!(
        err.message,
        "Raft rejected commit at ts=150 before quorum commit"
    );
    assert_eq!(flow.stage, WriteStage::Rejected);

    let mut flow = WriteFlow {
        commit_ts: 150,
        stage: WriteStage::Persist {
            raft_applied_index: None,
        },
    };
    let err = flow
        .advance(WriteEvent::Failed(
            WriteFailure::Other,
            CommitError::new("disk".to_string()),
        ))
        .unwrap();
    assert_eq!(err.message, "disk");
    assert_eq!(flow.stage, WriteStage::Fatal);
}

fn redo(partition: u32) -> TwoPhaseRedoEntry {
    TwoPhaseRedoEntry {
        transaction_id: "txn".to_string(),
        prepare_ts: 200,
        partition: PartitionId(partition),
        participants: vec![PartitionId(1), PartitionId(2)],
        transaction: ParticipantTransaction {
            begin_ts: 100,
            reads: ReadSet {
                indexed: Vec::new(),
                search: Vec::new(),
            },
            writes: vec![write_to(1, 7), write_to(1, 8)],
            tables: Vec::new(),
        },
        write_source: source(),
    }
}

#[test]
fn redo_records_are_recovered() {
    let id = |internal: u128| StoredId {
        tablet: TabletId(1),
        internal,
    };
    let local = PartitionId(1);
    assert_eq!(
        recover_two_phase_redo_record(&redo(2), local, &vec![]),
        Recovery::Ignore
    );
    assert_eq!(
        recover_two_phase_redo_record(&redo(1), local, &vec![id(8)]),
        Recovery::Stage
    );
    assert_eq!(
        recover_two_phase_redo_record(&redo(1), local, &vec![id(8), id(9), id(7)]),
        Recovery::Delete
    );

    let node = committer(Some(placement(1)), None);
    let mut records: TextMap<TwoPhaseRedoEntry> = TextMap::new();
    assert!(!node.needs_durable_redo("txn", &records));
    persist_two_phase_redo(&mut records, redo(1));
    assert!(node.needs_durable_redo("txn", &records));
    assert!(node.ensure_redo_is_local(&redo(1)).is_ok());
    assert_eq!(
        node.ensure_redo_is_local(&redo(2)).unwrap_err().message,
        "2PC redo txn=txn belongs to partition 2, local partition is 1"
    );
    assert!(delete_two_phase_redo(&mut records, "txn"));
    assert!(!delete_two_phase_redo(&mut records, "txn"));
    let mut node = node;
    prepare(&mut node, "txn", 200);
    let staged = PrepareResult { prepare_ts: 200 };
    assert_eq!(
        node.handle_raft_prepared_redo("txn", staged, Ok(())).unwrap(),
        staged
    );
    assert_eq!(node.prepared.len(), 1);
    // A prepare without its record is taken back.
    assert_eq!(
        node.handle_raft_prepared_redo("txn", staged, Err(CommitError::new("disk".to_string())))
            .unwrap_err()
            .message,
        "disk"
    );
    assert!(node.prepared.is_empty());
    assert_eq!(
        stage_failure(
            RedoUse::Recovery,
            "txn",
            CommitError::new("gone".to_string())
        )
        .message,
        "2PC Recovery: failed to stage prepared txn=txn: gone"
    );
}
