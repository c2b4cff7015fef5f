use std::collections::BTreeMap;
use std::sync::Arc;

use convex_cluster::committer::delta::CommitDelta;
use convex_cluster::committer::delta_flow::{
    DeltaFlow, DeltaStage, HeartbeatFlow, HeartbeatStage,
};
use convex_cluster::committer::go::{Aftermath, CompletedWrite};
use convex_cluster::committer::index_metadata::{
    remap_index_metadata_update, replicated_index_update_is_already_present, IndexInfo,
};
use convex_cluster::committer::install::{
    checkpoint_frontiers, checkpoint_index_entries, compact_checkpoint_documents, DocumentKey,
};
use convex_cluster::committer::install_plan::{
    checkpoint_globals, checkpoint_watermarks, install_steps, GlobalWrite, InstallStep, CHUNK,
};
use convex_cluster::committer::prepared::remap_participant_system_table_writes;
use convex_cluster::committer::replica::{
    is_global_deployment_table, replica_delta_timestamps, QueuedDelta, ReplicaCursor,
    ReplicaDeltaApplyMode, ReplicaFailure, ReplicaPlan, ReplicaStep,
};
use convex_cluster::committer::{
    CommitError, Committer, PreparedTransaction, SnapshotId, MAX_TIMESTAMP,
};
use convex_cluster::documents::{
    Content, Document, DocumentId, DocumentLogEntry, DocumentUpdate, DocumentWrite,
    IndexEntry, IndexKind, IndexMetadata, IndexState, Namespace, StoredId, TableInfo, TableMapping, TableMetadata,
    TableState,
};
use convex_cluster::metrics::{user_documents_size_subgauge, MetricsRecorder};
use convex_cluster::names::{TableName, TabletId, WriteSource};
use convex_cluster::partition::{
    PartitionId, PartitionMap, PlacementMetadata, PlacementVersion, StaticPlacementConfig,
};
use convex_cluster::placement::PlacementState;
use convex_cluster::text_map::TextMap;

const CROSS: ReplicaDeltaApplyMode = ReplicaDeltaApplyMode::CrossPartitionReplica;
const FULL: ReplicaDeltaApplyMode = ReplicaDeltaApplyMode::FullRaftState;

fn committer() -> Committer {
    let metadata = PlacementMetadata::from_static_config(StaticPlacementConfig {
        table_assignments: "messages=1",
        num_partitions: 2,
        placement_version: PlacementVersion::new(1),
    });
    Committer::new(
        100,
        100,
        SnapshotId(1),
        90,
        false,
        Some(PlacementState::new(PartitionId(0), metadata).unwrap()),
        None,
        BTreeMap::new(),
        BTreeMap::new(),
        BTreeMap::new(),
    )
}

fn id(tablet: u128, internal: u128) -> DocumentId {
    DocumentId {
        tablet: TabletId(tablet),
        number: 10_001,
        internal,
    }
}

fn stored(tablet: u128, internal: u128) -> StoredId {
    StoredId {
        tablet: TabletId(tablet),
        internal,
    }
}

fn document(id: DocumentId, content: Content) -> Arc<Document> {
    Arc::new(Document {
        id,
        creation_time: 1,
        size: 10,
        content,
    })
}

fn insert(tablet: u128, internal: u128, content: Content) -> DocumentUpdate {
    let id = id(tablet, internal);
    DocumentUpdate {
        id,
        old_document: None,
        new_document: Some(document(id, content)),
    }
}

fn data() -> Content {
    Content::Data(Arc::new(vec![1]))
}

fn table_row(name: &str, number: u32) -> Content {
    Content::Table(Arc::new(TableMetadata {
        name: TableName::parse(name).unwrap(),
        number,
        namespace: Namespace::Global,
        state: TableState::Active,
    }))
}

fn index_row(table: u128, enabled: bool) -> IndexMetadata {
    let none = Arc::new(Vec::new());
    IndexMetadata {
        table: TabletId(table),
        descriptor: Arc::new("by_status".to_string()),
        kind: IndexKind::Database,
        definition: none.clone(),
        state: if enabled {
            IndexState::Enabled { detail: none }
        } else {
            IndexState::Backfilling {
                staged: false,
                created_lower_bound: 0,
                retention_started: false,
                progress: none,
            }
        },
    }
}

/// A delta of partition 1. Its node stores `_tables` as 1, `_index` as 2,
/// `messages` as 3 and `_scheduled_jobs` as 4.
fn delta(ts: u64, updates: Vec<DocumentUpdate>) -> CommitDelta {
    let name = |s: &str| Arc::new(TableName::parse(s).unwrap());
    CommitDelta {
        ts,
        document_writes: Arc::new(Vec::new()),
        document_updates: Arc::new(updates),
        index_writes: Arc::new(Vec::new()),
        write_source: Arc::new(WriteSource::unknown()),
        write_bytes: 5,
        tables: BTreeMap::from([
            (1, name("_tables")),
            (2, name("_index")),
            (3, name("messages")),
            (4, name("_scheduled_jobs")),
        ]),
        source_partition: Some(PartitionId(1)),
    }
}

fn info(tablet: u128, name: &str, number: u32) -> TableInfo {
    TableInfo {
        tablet: TabletId(tablet),
        namespace: Namespace::Global,
        number,
        name: Arc::new(TableName::parse(name).unwrap()),
        active: true,
    }
}

/// This node stores `_tables` as 11, `_index` as 12 and, if it has it,
/// `messages` as 13.
fn local(with_messages: bool) -> TableMapping {
    let mut tables = vec![info(11, "_tables", 1), info(12, "_index", 2)];
    if with_messages {
        tables.push(info(13, "messages", 10_001));
    }
    TableMapping { tables }
}

/// Applies a delta to a node that has `messages`, and says what was applied.
fn apply(cursor: &mut ReplicaCursor, delta: &CommitDelta) -> Vec<DocumentUpdate> {
    let mut applied = Vec::new();
    loop {
        match cursor.step(delta, &local(true), &Vec::new()).unwrap() {
            ReplicaStep::Apply(u) => applied.push(u),
            ReplicaStep::Skipped | ReplicaStep::Entered => {}
            ReplicaStep::Finished => return applied,
        }
    }
}

#[test]
fn deltas_are_applied_in_the_tables_of_this_node() {
    let mut node = committer();
    let delta = delta(
        150,
        vec![
            insert(3, 7, data()),
            insert(2, 8, Content::Index(index_row(3, true))),
            insert(4, 9, data()),
            insert(1, 5, table_row("messages", 10_001)),
        ],
    );
    let plan = match node.apply_replica_delta(&delta, CROSS).unwrap() {
        ReplicaPlan::Apply(plan) => plan,
        plan => panic!("unexpected {plan:?}"),
    };
    assert_eq!(plan.commit_ts, 150);
    assert_eq!(plan.tables_updates, vec![3]);
    // What is local to the other node is left out.
    assert_eq!(plan.other_updates, vec![0, 1]);
    assert_eq!(plan.base, SnapshotId(1));
    assert_eq!(node.last_assigned_ts, 150);

    let mut cursor = ReplicaCursor::new(plan);
    let applied = apply(&mut cursor, &delta);
    // The table is there already.
    assert_eq!(applied.len(), 2);
    assert_eq!(applied[0].id.tablet, TabletId(13));
    assert_eq!(applied[1].id.tablet, TabletId(12));
    match &applied[1].new_document.as_ref().unwrap().content {
        Content::Index(m) => {
            assert_eq!(m.table, TabletId(13));
            assert!(m.is_backfilling());
        }
        content => panic!("unexpected {content:?}"),
    }

    let index_updates = vec![IndexEntry {
        ts: 1,
        index_id: 20,
        key: Arc::new(vec![4]),
        value: Some(stored(13, 7)),
    }];
    let mut flow = node.queue_replica_delta(
        &delta,
        &cursor.apply,
        &applied,
        &index_updates,
        SnapshotId(2),
        0,
        true,
    );
    assert_eq!(flow.commit_ts, 150);
    assert_eq!(flow.remote_ts, 150);
    assert_eq!(flow.source_partition, Some(PartitionId(1)));
    let queued = &flow.queued;
    assert_eq!(queued.index_writes.len(), 1);
    assert_eq!(queued.index_writes[0].ts, 150);
    assert_eq!(queued.index_writes[0].index_id, 20);
    assert_eq!(*queued.index_writes[0].key, vec![4]);
    assert_eq!(queued.index_writes[0].value, Some(stored(13, 7)));
    assert_eq!(queued.document_writes.len(), 2);
    assert_eq!(queued.document_writes[0].ts, 150);
    assert_eq!(queued.frontiers, Some(BTreeMap::from([(1, 150)])));
    assert_eq!(queued.data_watermarks, Some(BTreeMap::from([(1, 150)])));
    assert!(!queued.records_outbox);

    // A delta that comes twice is applied once.
    assert!(matches!(
        node.apply_replica_delta(&delta, CROSS).unwrap(),
        ReplicaPlan::Reply(Ok(150))
    ));

    let mut stages = vec![flow.stage];
    while flow.stage != DeltaStage::AwaitTurn {
        flow.advance(Ok(()));
        stages.push(flow.stage);
    }
    let aftermath = node.take_in(
        &mut MetricsRecorder::new(),
        &mut user_documents_size_subgauge(),
        Ok(CompletedWrite::ReplicaDelta(flow)),
    );
    let mut flow = match aftermath {
        Aftermath::Record(flow) => flow,
        aftermath => panic!("unexpected {aftermath:?}"),
    };
    stages.push(flow.stage);
    while flow.stage != DeltaStage::Publish {
        flow.advance(Ok(()));
        stages.push(flow.stage);
    }
    assert_eq!(
        stages,
        vec![
            DeltaStage::WriteRows,
            DeltaStage::RecordRepeatable,
            DeltaStage::RecordFrontiers,
            DeltaStage::AwaitTurn,
            DeltaStage::RecordWatermarks,
            DeltaStage::RecordDataWatermarks,
            DeltaStage::Publish,
        ]
    );
    // Nothing is seen before everything is recorded.
    assert_eq!(node.latest_ts, 100);
    node.publish_delta(&mut flow);
    assert_eq!(flow.stage, DeltaStage::Reply);
    assert_eq!(flow.committed, None);
    assert_eq!(node.latest_ts, 150);
    assert_eq!(node.frontiers[&1], 150);
    assert_eq!(node.write_frontiers[&1], 150);
    assert_eq!(node.published_watermarks[&1], 150);
}

/// A delta of the group's own partition of which everything is recorded.
fn recorded(commit_ts: u64, remote_ts: u64, snapshot: SnapshotId) -> DeltaFlow {
    let mut flow = DeltaFlow::start(
        0,
        commit_ts,
        remote_ts,
        Some(PartitionId(0)),
        snapshot,
        true,
        QueuedDelta {
            document_writes: vec![],
            index_writes: vec![],
            frontiers: None,
            watermarks: None,
            data_watermarks: None,
            records_outbox: false,
        },
    );
    flow.stage = DeltaStage::Publish;
    flow
}

/// A delta of the group's own partition at 150, ready to be written.
fn delta_of_the_group(node: &mut Committer) -> DeltaFlow {
    let mut delta = delta(150, vec![insert(3, 7, data())]);
    delta.source_partition = Some(PartitionId(0));
    let mode = ReplicaDeltaApplyMode::FullRaftState;
    let mut cursor = match node.apply_replica_delta(&delta, mode).unwrap() {
        ReplicaPlan::Apply(plan) => ReplicaCursor::new(plan),
        plan => panic!("unexpected {plan:?}"),
    };
    let applied = apply(&mut cursor, &delta);
    let index_updates = vec![];
    node.queue_replica_delta(
        &delta,
        &cursor.apply,
        &applied,
        &index_updates,
        SnapshotId(2),
        0,
        true,
    )
}

#[test]
fn unrecorded_deltas_stop_the_committer() {
    let broken = || CommitError::new("disk full".to_string());
    let mut node = committer();
    for turns in 0..3 {
        let mut flow = delta_of_the_group(&mut committer());
        for _ in 0..turns {
            flow.advance(Ok(()));
        }
        flow.advance(Err(broken()));
        assert_eq!(flow.stage, DeltaStage::Failed);
        let aftermath = committer().take_in(
            &mut MetricsRecorder::new(),
            &mut user_documents_size_subgauge(),
            Err(flow.failure.unwrap()),
        );
        assert!(matches!(
            aftermath,
            Aftermath::Fatal(e)
                if e.message == "Write failed. Unsure if transaction committed to disk.: disk full"
        ));
    }
    for turns in 0..3 {
        let mut flow = delta_of_the_group(&mut committer());
        for _ in 0..3 {
            flow.advance(Ok(()));
        }
        assert_eq!(flow.stage, DeltaStage::AwaitTurn);
        flow.take_turn();
        for _ in 0..turns {
            flow.advance(Ok(()));
        }
        flow.advance(Err(broken()));
        assert_eq!(flow.stage, DeltaStage::Failed);
        flow.advance(Ok(()));
        assert_eq!(flow.stage, DeltaStage::Failed);
        assert_eq!(flow.failure.unwrap().message, "disk full");
    }

    // One that commits a transaction prepared here deletes its redo record.
    node.prepared.insert("txn".to_string(), prepared(150, 150));
    let mut flow = delta_of_the_group(&mut node);
    for _ in 0..3 {
        flow.advance(Ok(()));
    }
    flow.take_turn();
    flow.advance(Ok(()));
    flow.advance(Ok(()));
    assert_eq!(flow.stage, DeltaStage::RecordOutbox);
    flow.advance(Ok(()));
    assert_eq!(flow.stage, DeltaStage::Publish);
    node.publish_delta(&mut flow);
    assert_eq!(flow.stage, DeltaStage::DeleteRedo);
    assert_eq!(flow.committed.as_deref(), Some("txn"));
    assert!(node.prepared.is_empty());
    // That it could not be deleted stops nobody.
    flow.advance(Err(broken()));
    assert_eq!(flow.stage, DeltaStage::Reply);
    assert!(flow.failure.is_none());
}

#[test]
fn deltas_follow_everything_local() {
    assert_eq!(
        replica_delta_timestamps(50, 30, 40).unwrap().local_apply_ts,
        50
    );
    assert!(replica_delta_timestamps(50, MAX_TIMESTAMP, 40).is_err());
    let mut node = committer();
    match node
        .apply_replica_delta(&delta(20, vec![insert(3, 7, data())]), CROSS)
        .unwrap()
    {
        ReplicaPlan::Apply(plan) => {
            assert_eq!(plan.remote_ts, 20);
            assert_eq!(plan.commit_ts, 101);
        }
        plan => panic!("unexpected {plan:?}"),
    }
}

#[test]
fn empty_deltas_say_how_far_their_source_has_come() {
    let mut node = committer();
    match node.apply_replica_delta(&delta(150, vec![]), CROSS).unwrap() {
        ReplicaPlan::Heartbeat {
            commit_ts,
            source_partition,
            frontiers,
            watermarks,
        } => {
            assert_eq!(commit_ts, 150);
            assert_eq!(source_partition, PartitionId(1));
            assert_eq!(frontiers, BTreeMap::from([(1, 150)]));
            let mut flow =
                HeartbeatFlow::start(4, commit_ts, source_partition, frontiers, watermarks);
            flow.advance(Ok(()));
            assert_eq!(flow.stage, HeartbeatStage::AwaitTurn);
            let aftermath = node.take_in(
                &mut MetricsRecorder::new(),
                &mut user_documents_size_subgauge(),
                Ok(CompletedWrite::FrontierHeartbeat(flow)),
            );
            let mut flow = match aftermath {
                Aftermath::RecordHeartbeat(flow) => flow,
                aftermath => panic!("unexpected {aftermath:?}"),
            };
            assert_eq!(flow.stage, HeartbeatStage::RecordWatermarks);
            flow.advance(Ok(()));
            assert!(node.frontiers.get(&1) != Some(&150));
            node.publish_heartbeat(&mut flow);
            assert_eq!(flow.stage, HeartbeatStage::Reply);
        }
        plan => panic!("unexpected {plan:?}"),
    }
    assert_eq!(node.frontiers[&1], 150);
    assert_eq!(node.published_watermarks[&1], 150);
    // No newer snapshot is readable, and no data counts as received.
    assert_eq!(node.latest_ts, 100);
    assert!(node.data_watermarks.is_empty());
    let data_after = delta(150, vec![insert(3, 7, data())]);
    assert!(matches!(
        node.apply_replica_delta(&data_after, CROSS).unwrap(),
        ReplicaPlan::Apply(_)
    ));
}

fn prepared(origin_ts: u64, commit_ts: u64) -> PreparedTransaction {
    PreparedTransaction {
        origin_ts,
        commit_ts,
        write_bytes: 0,
        document_writes: Arc::new(Vec::new()),
        index_writes: Arc::new(Vec::new()),
        updates: Arc::new(Vec::new()),
        source: Arc::new(WriteSource::unknown()),
        snapshot: SnapshotId(5),
    }
}

#[test]
fn deltas_do_not_overtake_transactions_in_doubt() {
    let mut node = committer();
    node.prepared
        .insert("txn".to_string(), prepared(120, 120));
    assert_eq!(node.min_prepared_ts(), Some(120));
    let late = delta(150, vec![insert(3, 7, data())]);
    match node.apply_replica_delta(&late, CROSS).unwrap() {
        ReplicaPlan::Reply(Err(e)) => assert_eq!(
            e.message,
            "Replica delta at ts=150 would overtake unresolved 2PC prepared transaction at \
             ts=120; retry after the prepared transaction commits or rolls back"
        ),
        plan => panic!("unexpected {plan:?}"),
    }
    assert!(matches!(
        node.apply_replica_delta(&delta(110, vec![insert(3, 7, data())]), CROSS)
            .unwrap(),
        ReplicaPlan::Apply(_)
    ));
}

#[test]
fn followers_finish_what_their_leader_prepared() {
    let mut node = committer();
    node.prepared
        .insert("txn".to_string(), prepared(120, 125));
    let mut commit = delta(120, vec![insert(4, 7, data())]);
    commit.source_partition = Some(PartitionId(0));
    match node.apply_replica_delta(&commit, FULL).unwrap() {
        ReplicaPlan::Apply(plan) => {
            assert_eq!(plan.commit_ts, 125);
            // A follower takes everything.
            assert_eq!(plan.other_updates, vec![0]);
        }
        plan => panic!("unexpected {plan:?}"),
    }
    let mut flow = recorded(125, 120, SnapshotId(6));
    node.publish_delta(&mut flow);
    assert_eq!(flow.stage, DeltaStage::DeleteRedo);
    assert_eq!(flow.committed.as_deref(), Some("txn"));
    assert!(node.prepared.is_empty());

    node.prepared
        .insert("a".to_string(), prepared(130, 130));
    node.prepared
        .insert("b".to_string(), prepared(130, 131));
    let mut flow = recorded(132, 130, SnapshotId(7));
    node.publish_delta(&mut flow);
    assert_eq!(flow.stage, DeltaStage::Failed);
    assert_eq!(
        flow.failure.unwrap().message,
        "Found 2 prepared transactions at ts=130; expected at most one"
    );
    assert_eq!(node.prepared.len(), 2);
}

#[test]
fn deltas_wait_for_tables_that_are_not_there() {
    let mut node = committer();
    let delta = delta(150, vec![insert(3, 7, data())]);
    let plan = match node.apply_replica_delta(&delta, CROSS).unwrap() {
        ReplicaPlan::Apply(plan) => plan,
        plan => panic!("unexpected {plan:?}"),
    };
    let mut cursor = ReplicaCursor::new(plan);
    loop {
        match cursor.step(&delta, &local(false), &Vec::new()) {
            Ok(ReplicaStep::Entered) => {}
            Ok(step) => panic!("unexpected {step:?}"),
            Err(ReplicaFailure::Retry(e)) => {
                assert!(e.message.contains("messages"), "{}", e.message);
                break;
            }
            Err(e) => panic!("unexpected {e:?}"),
        }
    }
}

#[test]
fn tables_have_one_number_everywhere() {
    let mut node = committer();
    let delta = delta(150, vec![insert(1, 5, table_row("messages", 10_002))]);
    let plan = match node.apply_replica_delta(&delta, CROSS).unwrap() {
        ReplicaPlan::Apply(plan) => plan,
        plan => panic!("unexpected {plan:?}"),
    };
    let mut cursor = ReplicaCursor::new(plan);
    loop {
        match cursor.step(&delta, &local(true), &Vec::new()) {
            Ok(ReplicaStep::Entered) => {}
            Ok(step) => panic!("unexpected {step:?}"),
            Err(ReplicaFailure::Broken(e)) => {
                assert_eq!(
                    e.message,
                    "Replicated table 'messages' has table number 10002 but local table uses 10001"
                );
                break;
            }
            Err(e) => panic!("unexpected {e:?}"),
        }
    }
}

#[test]
fn deployment_tables_go_everywhere() {
    assert!(is_global_deployment_table("_modules"));
    assert!(is_global_deployment_table("_udf_config"));
    assert!(is_global_deployment_table("_source_packages"));
    assert!(!is_global_deployment_table("_scheduled_jobs"));
}

#[test]
fn indexes_that_exist_are_not_created_again() {
    let update = insert(12, 8, Content::Index(index_row(13, false)));
    let same = |id: u128, table: u128| {
        vec![IndexInfo {
            id,
            metadata: index_row(table, false),
        }]
    };
    assert!(!replicated_index_update_is_already_present(&vec![], &update).unwrap());
    // The same index.
    assert!(!replicated_index_update_is_already_present(&same(8, 13), &update).unwrap());
    // The same under another id.
    assert!(replicated_index_update_is_already_present(&same(9, 13), &update).unwrap());
    // One of another table.
    assert!(!replicated_index_update_is_already_present(&same(9, 14), &update).unwrap());
    let mut other = same(9, 13);
    other[0].metadata.definition = Arc::new(vec![1]);
    assert_eq!(
        replicated_index_update_is_already_present(&other, &update)
            .unwrap_err()
            .message,
        "Replicated _index metadata for 0000000000000000000000000000000d.by_status has document \
         id 00000000000000000000000000000008 but local index id 00000000000000000000000000000009 \
         already exists with different config"
    );
    assert!(remap_index_metadata_update(&update, TabletId(12), &BTreeMap::new(), true)
        .unwrap_err()
        .message
        .contains("table is not mapped locally"));
}

#[test]
fn participants_keep_metadata_in_their_own_tables() {
    let source = TableMapping {
        tables: vec![info(1, "_tables", 1), info(3, "messages", 10_001)],
    };
    let write = |tablet: u128| {
        let id = id(tablet, 5);
        DocumentWrite {
            id,
            old_document: None,
            new_document: Some(document(id, table_row("messages", 10_001))),
        }
    };
    let remapped =
        remap_participant_system_table_writes(&vec![write(1), write(3)], &source, &local(true))
            .unwrap();
    assert_eq!(remapped[0].id.tablet, TabletId(11));
    assert_eq!(remapped[0].id.number, 1);
    assert_eq!(
        remapped[0].new_document.as_ref().unwrap().id.tablet,
        TabletId(11)
    );
    assert_eq!(remapped[1].id.tablet, TabletId(3));
}

fn entry(ts: u64, tablet: u128, internal: u128, live: bool) -> DocumentLogEntry {
    DocumentLogEntry {
        ts,
        id: stored(tablet, internal),
        value: if live {
            Some(document(id(tablet, internal), data()))
        } else {
            None
        },
        prev_ts: None,
    }
}

#[test]
fn checkpoints_hold_the_last_revision_of_each_document() {
    let compacted = compact_checkpoint_documents(&vec![
        entry(1, 3, 9, true),
        entry(2, 3, 7, true),
        entry(3, 3, 9, true),
        entry(4, 2, 1, true),
        entry(5, 2, 1, false),
    ]);
    let kept: Vec<(u64, u128)> = compacted.iter().map(|e| (e.ts, e.id.internal)).collect();
    assert_eq!(kept, vec![(2, 7), (3, 9)]);

    let key = |index_id: Option<u128>, byte: u8| DocumentKey {
        index_id,
        key: Arc::new(vec![byte]),
    };
    let entries = checkpoint_index_entries(
        &compacted,
        &vec![
            vec![key(Some(20), 2), key(None, 0)],
            vec![key(Some(20), 1), key(Some(10), 9)],
        ],
    );
    let keys: Vec<(u64, u128, u8)> = entries
        .iter()
        .map(|e| (e.ts, e.index_id, e.key[0]))
        .collect();
    assert_eq!(keys, vec![(2, 20, 2), (3, 10, 9), (3, 20, 1)]);
    assert_eq!(entries[1].value, Some(stored(3, 9)));
}

#[test]
fn heartbeats_that_are_not_recorded_stop_the_committer() {
    let start = || {
        HeartbeatFlow::start(
            4,
            9,
            PartitionId(1),
            BTreeMap::from([(1, 9)]),
            BTreeMap::from([(1, 9)]),
        )
    };
    let mut flow = start();
    flow.advance(Err(CommitError::new("disk full".to_string())));
    assert_eq!(flow.stage, HeartbeatStage::Failed);
    assert_eq!(flow.failure.unwrap().message, "disk full");
    let mut flow = start();
    flow.advance(Ok(()));
    flow.take_turn();
    flow.advance(Err(CommitError::new("disk full".to_string())));
    assert_eq!(flow.stage, HeartbeatStage::Failed);
    assert_eq!(flow.failure.unwrap().message, "disk full");
}

fn globals_of(recorded: &[&str]) -> Vec<String> {
    let keys = vec!["a".to_string(), "data".to_string(), "b".to_string()];
    let mut globals: TextMap<u64> = TextMap::new();
    for key in recorded {
        globals.insert(key.to_string(), 1);
    }
    checkpoint_globals(&keys, &globals, "data")
        .into_iter()
        .map(|write| match write {
            GlobalWrite::Recorded(key) => key,
            GlobalWrite::NoRedoRecords => "no redo".to_string(),
            GlobalWrite::NoDataWatermarks => "no data".to_string(),
        })
        .collect()
}

#[test]
fn installs_record_what_the_checkpoint_has() {
    assert_eq!(globals_of(&[]), vec!["no redo", "no data"]);
    assert_eq!(globals_of(&["b", "other"]), vec!["b", "no redo", "no data"]);
    assert_eq!(
        globals_of(&["b", "data", "a"]),
        vec!["a", "data", "b", "no redo"]
    );
    assert!(checkpoint_watermarks(None).is_empty());
    assert_eq!(
        checkpoint_watermarks(Some(BTreeMap::from([(2, 9)]))),
        BTreeMap::from([(2, 9)])
    );
}

#[test]
fn installs_write_rows_in_chunks() {
    assert_eq!(CHUNK, 1024);
    let shown = |has_documents, documents, entries| -> Vec<String> {
        let globals = vec![
            GlobalWrite::Recorded("a".to_string()),
            GlobalWrite::NoRedoRecords,
        ];
        install_steps(has_documents, documents, entries, globals)
            .into_iter()
            .map(|step| match step {
                InstallStep::DeleteDocuments => "-docs".to_string(),
                InstallStep::DeleteIndexEntries => "-index".to_string(),
                InstallStep::WriteDocuments { from, to } => format!("docs {from}..{to}"),
                InstallStep::WriteIndexEntries { from, to } => format!("index {from}..{to}"),
                InstallStep::WriteGlobal(GlobalWrite::Recorded(key)) => key,
                InstallStep::WriteGlobal(_) => "reset".to_string(),
            })
            .collect()
    };
    assert_eq!(shown(false, 0, 0), vec!["-index", "a", "reset"]);
    assert_eq!(
        shown(true, 1024, 2049),
        vec![
            "-docs",
            "-index",
            "docs 0..1024",
            "index 0..1024",
            "index 1024..2048",
            "index 2048..2049",
            "a",
            "reset",
        ]
    );
}

#[test]
fn installed_checkpoints_replace_everything() {
    let map = PartitionMap::from_config("messages=1", PartitionId(0), 3);
    assert_eq!(
        checkpoint_frontiers(None, Some(&map)),
        BTreeMap::from([(1, 0), (2, 0)])
    );
    assert_eq!(
        checkpoint_frontiers(Some(BTreeMap::from([(2, 9)])), Some(&map)),
        BTreeMap::from([(2, 9)])
    );
    assert!(checkpoint_frontiers(None, None).is_empty());

    let mut node = committer();
    node.prepared
        .insert("txn".to_string(), prepared(120, 120));
    let aftermath = node.take_in(
        &mut MetricsRecorder::new(),
        &mut user_documents_size_subgauge(),
        Ok(CompletedWrite::InstallSnapshot {
            commit_id: 3,
            snapshot_ts: 500,
            snapshot: SnapshotId(9),
            frontiers: BTreeMap::from([(1, 480)]),
            watermarks: BTreeMap::from([(1, 470)]),
            data_watermarks: BTreeMap::from([(1, 460)]),
        }),
    );
    assert!(matches!(aftermath, Aftermath::Installed { ts: 500 }));
    assert!(node.prepared.is_empty());
    assert_eq!(node.latest_ts, 500);
    assert_eq!(node.published_watermarks[&1], 470);
    assert_eq!(node.next_commit_ts(Ok(1)).unwrap(), 501);
}
