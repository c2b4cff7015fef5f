use std::collections::BTreeMap;
use std::sync::Arc;

use convex_cluster::committer::client::is_retryable_system_generated_id_conflict;
use convex_cluster::committer::delta::CommitDelta;
use convex_cluster::committer::index_metadata::remap_index_metadata_update;
use convex_cluster::committer::outbox::{
    add_raft_nats_outbox_delta, delete_raft_nats_outbox_delta, Replay, ReplayAction,
};
use convex_cluster::committer::raft::{wait_for_raft_commit, RaftAnswer};
use convex_cluster::committer::replica::replica_delta_timestamps;
use convex_cluster::committer::CommitError;
use convex_cluster::documents::{
    Content, Document, DocumentId, DocumentUpdate, IndexKind, IndexMetadata, IndexState,
};
use convex_cluster::names::{TableName, TabletId, WriteSource};
use convex_cluster::partition::PartitionId;
use convex_cluster::text_map::TextMap;

fn test_outbox_delta(ts: u64) -> CommitDelta {
    CommitDelta {
        ts,
        document_writes: Arc::new(Vec::new()),
        document_updates: Arc::new(Vec::new()),
        index_writes: Arc::new(Vec::new()),
        write_source: Arc::new(WriteSource::new("test_outbox_delta")),
        write_bytes: 0,
        tables: BTreeMap::new(),
        source_partition: Some(PartitionId(0)),
    }
}

fn test_tablet(byte: u8) -> TabletId {
    TabletId(u128::from_be_bytes([byte; 16]))
}

fn index_update(
    source_index_tablet: TabletId,
    source_index_table_number: u32,
    source_user_tablet: TabletId,
    document_byte: u8,
    descriptor: &str,
) -> DocumentUpdate {
    let id = DocumentId {
        tablet: source_index_tablet,
        number: source_index_table_number,
        internal: u128::from_be_bytes([document_byte; 16]),
    };
    let metadata = IndexMetadata {
        table: source_user_tablet,
        descriptor: Arc::new(descriptor.to_string()),
        kind: IndexKind::Database,
        definition: Arc::new(Vec::new()),
        state: IndexState::Enabled {
            detail: Arc::new(Vec::new()),
        },
    };
    DocumentUpdate {
        id,
        old_document: None,
        new_document: Some(Arc::new(Document {
            id,
            creation_time: 1,
            size: 1,
            content: Content::Index(metadata),
        })),
    }
}

fn test_index_metadata_update(
    source_index_tablet: TabletId,
    source_index_table_number: u32,
    source_user_tablet: TabletId,
) -> DocumentUpdate {
    index_update(
        source_index_tablet,
        source_index_table_number,
        source_user_tablet,
        99,
        "by_status",
    )
}

fn test_by_id_index_metadata_update(
    source_index_tablet: TabletId,
    source_index_table_number: u32,
    source_user_tablet: TabletId,
) -> DocumentUpdate {
    index_update(
        source_index_tablet,
        source_index_table_number,
        source_user_tablet,
        98,
        "by_id",
    )
}

fn metadata_of(update: &DocumentUpdate) -> &IndexMetadata {
    match &update.new_document.as_ref().unwrap().content {
        Content::Index(metadata) => metadata,
        content => panic!("unexpected {content:?}"),
    }
}

/// A replication log that remembers what was published, or refuses to publish.
#[derive(Default)]
struct RecordingDistributedLog {
    fail_publishes: bool,
    published: Vec<u64>,
}

impl RecordingDistributedLog {
    fn publish(&mut self, delta: &CommitDelta) -> Result<(), CommitError> {
        if self.fail_publishes {
            return Err(CommitError::new("injected publish failure".to_string()));
        }
        self.published.push(delta.ts);
        Ok(())
    }
}

fn replay_raft_nats_outbox_once(
    records: &mut TextMap<CommitDelta>,
    log: &mut RecordingDistributedLog,
) -> Result<usize, CommitError> {
    let timestamps: Vec<u64> = (0..records.len())
        .map(|i| records.value_at(i).ts)
        .collect();
    let mut replay = Replay::start(timestamps.len());
    loop {
        let result = match replay.action() {
            ReplayAction::Publish(i) => {
                log.publish(records.get(&timestamps[i].to_string()).unwrap())
            }
            ReplayAction::Clear(i) => {
                delete_raft_nats_outbox_delta(records, timestamps[i]);
                Ok(())
            }
            ReplayAction::Done(replayed) => return Ok(replayed),
        };
        replay.advance(result)?;
    }
}

#[test]
fn replicated_index_metadata_remaps_target_tablet_and_downgrades_query_ready_state() {
    let source_index_tablet = test_tablet(1);
    let local_index_tablet = test_tablet(2);
    let source_user_tablet = test_tablet(3);
    let local_user_tablet = test_tablet(4);
    let update = test_index_metadata_update(source_index_tablet, 2, source_user_tablet);
    let tablet_remap = BTreeMap::from([(source_user_tablet.0, local_user_tablet.0)]);

    let remapped =
        remap_index_metadata_update(&update, local_index_tablet, &tablet_remap, true).unwrap();

    assert_eq!(remapped.id.tablet, local_index_tablet);
    let metadata = metadata_of(&remapped);
    assert_eq!(metadata.table, local_user_tablet);
    assert!(metadata.is_backfilling());
    assert!(!metadata.is_enabled());
}

#[test]
fn replicated_builtin_index_metadata_remains_query_ready() {
    let source_index_tablet = test_tablet(21);
    let local_index_tablet = test_tablet(22);
    let source_user_tablet = test_tablet(23);
    let local_user_tablet = test_tablet(24);
    let update = test_by_id_index_metadata_update(source_index_tablet, 2, source_user_tablet);
    let tablet_remap = BTreeMap::from([(source_user_tablet.0, local_user_tablet.0)]);

    let remapped =
        remap_index_metadata_update(&update, local_index_tablet, &tablet_remap, true).unwrap();

    let metadata = metadata_of(&remapped);
    assert_eq!(metadata.table, local_user_tablet);
    assert!(metadata.is_enabled());
}

#[test]
fn raft_index_metadata_remap_preserves_query_ready_state() {
    let source_index_tablet = test_tablet(11);
    let local_index_tablet = test_tablet(12);
    let source_user_tablet = test_tablet(13);
    let local_user_tablet = test_tablet(14);
    let update = test_index_metadata_update(source_index_tablet, 2, source_user_tablet);
    let tablet_remap = BTreeMap::from([(source_user_tablet.0, local_user_tablet.0)]);

    let remapped =
        remap_index_metadata_update(&update, local_index_tablet, &tablet_remap, false).unwrap();

    assert_eq!(remapped.id.tablet, local_index_tablet);
    let metadata = metadata_of(&remapped);
    assert_eq!(metadata.table, local_user_tablet);
    assert!(metadata.is_enabled());
}

#[test]
fn replica_delta_timestamps_distinguish_origin_from_local_apply_ts() {
    let timestamps = replica_delta_timestamps(10, 30, 40).unwrap();

    assert_eq!(timestamps.origin_ts, 10);
    assert_eq!(timestamps.local_apply_ts, 41);
}

#[test]
fn raft_commit_waiter_accepts_committed_proposal() {
    let applied_index = wait_for_raft_commit(RaftAnswer::Committed { index: 7 }, 1).unwrap();
    assert_eq!(applied_index, Some(7));
}

#[test]
fn raft_commit_waiter_rejects_failed_proposal() {
    let err = wait_for_raft_commit(RaftAnswer::Rejected, 1).unwrap_err();
    assert!(err.message.contains("Raft rejected commit"));
}

#[test]
fn raft_commit_waiter_allows_non_raft_commit() {
    let applied_index = wait_for_raft_commit(RaftAnswer::NotReplicated, 1).unwrap();
    assert_eq!(applied_index, None);
}

#[test]
fn raft_nats_outbox_replay_publishes_and_clears() {
    let mut records: TextMap<CommitDelta> = TextMap::new();
    let mut log = RecordingDistributedLog::default();
    let ts = 10;
    add_raft_nats_outbox_delta(&mut records, ts, test_outbox_delta(ts));

    let replayed = replay_raft_nats_outbox_once(&mut records, &mut log).unwrap();

    assert_eq!(replayed, 1);
    assert_eq!(log.published, vec![ts]);
    assert!(records.is_empty());
}

#[test]
fn raft_nats_outbox_replay_keeps_record_on_publish_failure() {
    let mut records: TextMap<CommitDelta> = TextMap::new();
    let mut log = RecordingDistributedLog {
        fail_publishes: true,
        published: Vec::new(),
    };
    let ts = 11;
    add_raft_nats_outbox_delta(&mut records, ts, test_outbox_delta(ts));

    let err = replay_raft_nats_outbox_once(&mut records, &mut log).unwrap_err();
    assert!(err.message.contains("injected publish failure"));
    assert_eq!(log.published, Vec::<u64>::new());
    assert_eq!(records.len(), 1);

    log.fail_publishes = false;
    let replayed = replay_raft_nats_outbox_once(&mut records, &mut log).unwrap();
    assert_eq!(replayed, 1);
    assert_eq!(log.published, vec![ts]);
    assert!(records.is_empty());
}

#[test]
fn retryable_system_generated_id_conflict_matches_udf_config_table() {
    let table_name = TableName::parse("_udf_config").unwrap();
    assert!(is_retryable_system_generated_id_conflict(&table_name, true));
}

#[test]
fn retryable_system_generated_id_conflict_rejects_other_tables() {
    let table_name = TableName::parse("_components").unwrap();
    assert!(!is_retryable_system_generated_id_conflict(
        &table_name,
        true
    ));
    let udf_table = TableName::parse("_udf_config").unwrap();
    assert!(!is_retryable_system_generated_id_conflict(
        &udf_table, false
    ));
}

#[test]
fn closed_raft_groups_fail_commits() {
    let err = wait_for_raft_commit(RaftAnswer::Closed, 9).unwrap_err();
    assert_eq!(
        err.message,
        "Raft proposal result channel closed before commit at ts=9 reached quorum"
    );
    let err = wait_for_raft_commit(RaftAnswer::Rejected, 9).unwrap_err();
    assert_eq!(
        err.message,
        "Raft rejected commit at ts=9 before quorum commit"
    );
}

#[test]
fn outbox_records_are_replayed_in_the_order_of_their_names() {
    let mut records: TextMap<CommitDelta> = TextMap::new();
    let mut log = RecordingDistributedLog::default();
    for ts in [20, 3, 100] {
        add_raft_nats_outbox_delta(&mut records, ts, test_outbox_delta(ts));
    }
    let replayed = replay_raft_nats_outbox_once(&mut records, &mut log).unwrap();
    assert_eq!(replayed, 3);
    assert_eq!(log.published, vec![100, 20, 3]);
}
