use std::collections::BTreeMap;
use std::sync::Arc;

use convex_cluster::committer::bootstrap::IndexUpdate;
use convex_cluster::committer::client::{
    commit_route, find_generated, finish_remote_read_wait, generated_id_conflict,
    generated_ids_ts, log_install, remote_read_waits, send_error, CommitRoute, CommitterClient,
    GeneratedIdError, SendFailure,
};
use convex_cluster::committer::go::{
    pick, Handled, LoopState, Pace, Ready, TraceEnd, TurnKind,
};
use convex_cluster::committer::order::{order_writes, BootstrapTableIds};
use convex_cluster::committer::staging::{IndexWrite, ValidatedDocumentWrite};
use convex_cluster::committer::usage::{
    track_commit, ComponentEntry, UsageContext, UsageKind, VirtualTable,
};
use convex_cluster::committer::{Committer, RaftState, SnapshotId, MAX_TIMESTAMP};
use convex_cluster::documents::{
    Content, Document, DocumentId, DocumentWrite, IndexEntry, Namespace, ReadSet, StoredId,
    TableInfo, TableMapping, TableMetadata, TableState,
};
use convex_cluster::local_backend::{
    found_checkpoint, parse_raft_peers, ConsumerBackoff, HttpActionRouteMapper, LocalConfig,
    WorkerAction, WorkerSupervisor, MAX_CONSUMER_BACKOFF_MS,
};
use convex_cluster::metrics::{
    log_replica_bootstrap_result, log_retention_documents_deleted,
    log_subscription_invalidation_lag, subscription_timer, user_documents_size_subgauge, Amount,
    ErrorClass, MetricsRecorder, SampleKind,
};
use convex_cluster::names::{TableName, TabletId, WriteSource};
use convex_cluster::partition::{
    PartitionId, PartitionMap, PlacementMetadata, PlacementVersion, StaticPlacementConfig,
};
use convex_cluster::placement::PlacementState;
use convex_cluster::two_phase::NodeAddresses;
use convex_cluster::two_phase_coordinator::TransactionClassification;

fn info(tablet: u128, name: &str, namespace: Namespace) -> TableInfo {
    TableInfo {
        tablet: TabletId(tablet),
        namespace,
        number: 10_000,
        name: Arc::new(TableName::parse(name).unwrap()),
        active: true,
    }
}

fn mapping() -> TableMapping {
    TableMapping {
        tables: vec![
            info(1, "_tables", Namespace::Global),
            info(2, "_index", Namespace::Global),
            info(3, "messages", Namespace::Component(8)),
            info(4, "_udf_config", Namespace::Global),
            info(5, "_file_storage", Namespace::Global),
        ],
    }
}

fn id(tablet: u128, internal: u128) -> DocumentId {
    DocumentId {
        tablet: TabletId(tablet),
        number: 10_000,
        internal,
    }
}

fn stored(tablet: u128, internal: u128) -> StoredId {
    StoredId {
        tablet: TabletId(tablet),
        internal,
    }
}

fn document(id: DocumentId, content: Content) -> Arc<Document> {
    Arc::new(Document {
        id,
        creation_time: 1,
        size: 40,
        content,
    })
}

fn placement(local: u32) -> PlacementState {
    let metadata = PlacementMetadata::from_static_config(StaticPlacementConfig {
        table_assignments: "messages=1",
        num_partitions: 2,
        placement_version: PlacementVersion::new(4),
    })
    .with_members(BTreeMap::from([(1, vec!["http://one".to_string()])]));
    PlacementState::new(PartitionId(local), metadata).unwrap()
}

fn committer(placement: Option<PlacementState>, raft: Option<RaftState>) -> Committer {
    Committer::new(
        100,
        100,
        SnapshotId(1),
        90,
        false,
        placement,
        raft,
        BTreeMap::new(),
        BTreeMap::new(),
        BTreeMap::new(),
    )
}

#[test]
fn writes_are_ordered_by_what_depends_on_what() {
    let ids = BootstrapTableIds::find(&mapping()).unwrap();
    assert_eq!(ids.tables, TabletId(1));
    assert_eq!(ids.index, TabletId(2));
    assert_eq!(BootstrapTableIds::find(&TableMapping { tables: vec![] }), None);

    let write = |tablet: u128, internal: u128, content: Option<Content>| DocumentWrite {
        id: id(tablet, internal),
        old_document: None,
        new_document: content.map(|c| document(id(tablet, internal), c)),
    };
    let table = |name: &str, state: TableState| {
        Some(Content::Table(Arc::new(TableMetadata {
            name: TableName::parse(name).unwrap(),
            number: 10_000,
            namespace: Namespace::Global,
            state,
        })))
    };
    let data = || Some(Content::Data(Arc::new(Vec::new())));
    let ordered = order_writes(
        ids,
        vec![
            write(3, 2, data()),
            write(3, 1, data()),
            write(2, 1, data()),
            write(1, 3, table("messages", TableState::Active)),
            write(1, 2, table("_tables", TableState::Active)),
            write(1, 1, table("old", TableState::Deleting)),
            write(2, 2, None),
        ],
    );
    let order: Vec<(u128, u128)> = ordered
        .iter()
        .map(|w| (w.id.tablet.0, w.id.internal))
        .collect();
    assert_eq!(
        order,
        vec![(2, 2), (1, 1), (1, 2), (1, 3), (2, 1), (3, 1), (3, 2)]
    );
}

#[test]
fn commits_are_charged_by_table() {
    let index_write = |document: Option<TabletId>, is_system_index: bool| IndexWrite {
        entry: IndexEntry {
            ts: 1,
            index_id: 1,
            key: Arc::new(vec![1]),
            value: None,
        },
        entry_bytes: 9,
        key_bytes: 6,
        is_system_index,
        document,
    };
    let document_write = |tablet: u128, vector_bytes: u64, text_bytes: u64| ValidatedDocumentWrite {
        commit_ts: 1,
        id: stored(tablet, 1),
        write: Some(document(
            id(tablet, 1),
            Content::Data(Arc::new(Vec::new())),
        )),
        vector_bytes,
        text_bytes,
        prev_ts: None,
    };
    let context = UsageContext {
        components: vec![ComponentEntry {
            namespace: Namespace::Component(8),
            path: Arc::new("billing".to_string()),
        }],
        virtual_tables: vec![VirtualTable {
            system: "_file_storage".to_string(),
            visible: "_storage".to_string(),
        }],
    };
    let items = track_commit(
        &vec![
            index_write(Some(TabletId(3)), true),
            index_write(None, false),
            index_write(Some(TabletId(99)), false),
        ],
        &vec![document_write(3, 7, 0), document_write(5, 0, 3)],
        &mapping(),
        &context,
    );
    let charges: Vec<(UsageKind, Option<&str>, &str, u64, bool)> = items
        .iter()
        .map(|i| {
            (
                i.kind,
                i.component.as_ref().map(|c| c.as_str()),
                i.table.as_str(),
                i.bytes,
                i.skip_charge,
            )
        })
        .collect();
    let billing = Some("billing");
    assert_eq!(
        charges,
        vec![
            (UsageKind::Database, billing, "messages", 6, true),
            (UsageKind::DatabaseV2, billing, "messages", 6, true),
            (UsageKind::Database, billing, "messages", 40, false),
            (UsageKind::DatabaseV2, billing, "messages", 40, false),
            (
                UsageKind::Vector { document_bytes: 40 },
                billing,
                "messages",
                7,
                false
            ),
            (UsageKind::Database, None, "_file_storage", 40, true),
            (UsageKind::DatabaseV2, None, "_storage", 40, false),
            (UsageKind::Text, None, "_file_storage", 3, true),
        ]
    );
}

#[test]
fn clients_know_the_placement() {
    let mut client = CommitterClient {
        placement: Some(placement(0)),
        node_addresses: None,
    };
    assert_eq!(client.local_partition(), Some(PartitionId(0)));
    assert_eq!(client.placement_version(), PlacementVersion::new(4));
    assert_eq!(
        client
            .effective_node_addresses()
            .unwrap()
            .address_for(PartitionId(1)),
        Some("http://one")
    );
    assert!(client
        .ensure_placement_version(PlacementVersion::new(4))
        .is_ok());
    assert!(client
        .ensure_placement_version(PlacementVersion::new(5))
        .is_err());
    let older = PlacementMetadata::from_static_config(StaticPlacementConfig {
        table_assignments: "",
        num_partitions: 2,
        placement_version: PlacementVersion::new(3),
    });
    assert!(client.refresh_placement_metadata(older).is_err());
    assert_eq!(client.placement_version(), PlacementVersion::new(4));
}

#[test]
fn transactions_wait_for_the_partitions_they_read() {
    let map = PartitionMap::from_config("messages=1", PartitionId(0), 2);
    let reads = ReadSet {
        indexed: vec![TabletId(3)],
        search: Vec::new(),
    };
    let source = WriteSource::unknown();
    let wait = remote_read_waits(
        Some(&map),
        &BTreeMap::from([(1, 70)]),
        80,
        &reads,
        &mapping(),
        &source,
    );
    assert_eq!(wait.required, vec![1]);
    assert_eq!(wait.waits, vec![(PartitionId(1), 70)]);
    let wait = remote_read_waits(
        Some(&map),
        &BTreeMap::from([(1, 80)]),
        80,
        &reads,
        &mapping(),
        &source,
    );
    assert!(wait.waits.is_empty());
    assert!(remote_read_waits(None, &BTreeMap::new(), 80, &reads, &mapping(), &source)
        .required
        .is_empty());

    let mut metrics = MetricsRecorder::new();
    assert!(finish_remote_read_wait(&mut metrics, 5, false, "10s", 80, &vec![1]).is_ok());
    assert_eq!(metrics.drain().len(), 1);
    let err = finish_remote_read_wait(&mut metrics, 5, true, "10s", 80, &vec![1, 2]).unwrap_err();
    assert_eq!(
        err.message,
        "Timed out after 10s waiting for remote read frontiers to reach begin_ts=80 on \
         partitions {PartitionId(1), PartitionId(2)}"
    );
    assert_eq!(metrics.drain().len(), 2);
}

#[test]
fn commits_take_the_short_way_where_they_can() {
    assert_eq!(commit_route(None), CommitRoute::Local);
    assert_eq!(
        commit_route(Some(&TransactionClassification::SinglePartition)),
        CommitRoute::Local
    );
    assert_eq!(
        commit_route(Some(&TransactionClassification::RemoteSinglePartition {
            owner: PartitionId(1)
        })),
        CommitRoute::Coordinated
    );
}

#[test]
fn documents_are_created_once() {
    assert!(matches!(
        generated_id_conflict(stored(3, 1), false, "abc", &mapping()),
        GeneratedIdError::Deleted(s)
            if s == "Cannot recreate document with _id abc that was deleted. Try to insert it \
                     without an _id or insert into another table."
    ));
    assert!(matches!(
        generated_id_conflict(stored(3, 1), true, "abc", &mapping()),
        GeneratedIdError::Exists(s)
            if s == "Cannot create document with _id abc that already exists. Try to update it \
                     with `db.patch` or `db.replace`."
    ));
    assert_eq!(
        generated_id_conflict(stored(3, 1), false, "abc", &mapping()).code(),
        Some("DocumentDeleted")
    );
    assert_eq!(
        generated_id_conflict(stored(3, 1), true, "abc", &mapping()).code(),
        Some("DocumentExists")
    );
    assert_eq!(
        generated_id_conflict(stored(4, 1), true, "abc", &mapping()).code(),
        None
    );
    match generated_id_conflict(stored(4, 1), true, "abc", &mapping()) {
        GeneratedIdError::Retry(e) => {
            assert_eq!(
                e.message,
                "System metadata row with _id abc in table _udf_config already exists; retrying \
                 against a fresher metadata view"
            );
            assert!(e.occ.is_some());
        }
        e => panic!("unexpected {e:?}"),
    }
    assert_eq!(
        find_generated(&vec![id(3, 1), id(3, 2)], stored(3, 2)),
        Some(1)
    );
    assert_eq!(find_generated(&vec![id(3, 1)], stored(4, 1)), None);
    assert_eq!(generated_ids_ts(7).unwrap(), 8);
    assert!(generated_ids_ts(MAX_TIMESTAMP).is_err());
}

#[test]
fn senders_are_told_why_the_committer_did_not_answer() {
    let mut metrics = MetricsRecorder::new();
    let full = send_error(&mut metrics, SendFailure::Full);
    assert_eq!(full.class, ErrorClass::Overloaded);
    assert_eq!(full.short_msg, "CommitterFullError");
    let closed = send_error(&mut metrics, SendFailure::Closed);
    assert_eq!(closed.msg, "Database Shutting Down");
    log_install(&mut metrics, Some(9));
    log_install(&mut metrics, None);
    let samples = metrics.drain();
    let names: Vec<&str> = samples.iter().map(|s| s.metric).collect();
    assert_eq!(
        names,
        vec![
            "DATABASE_COMMITTER_FULL_TOTAL",
            "SHUTDOWN_TOTAL",
            "DATABASE_SNAPSHOT_INSTALL_TOTAL",
            "DATABASE_SNAPSHOT_INSTALLED_TS_INFO",
            "DATABASE_SNAPSHOT_INSTALL_TOTAL",
        ]
    );
    assert_eq!(samples[4].labels[0].value, "error");
}

#[test]
fn timers_come_before_messages() {
    let mut ready = Ready {
        bump: true,
        heartbeat: true,
        replay: true,
        write: true,
        message: true,
    };
    assert_eq!(pick(ready), TurnKind::Bump);
    ready.bump = false;
    assert_eq!(pick(ready), TurnKind::Heartbeat);
    ready.heartbeat = false;
    assert_eq!(pick(ready), TurnKind::Replay);
    ready.replay = false;
    assert_eq!(pick(ready), TurnKind::Write);
    ready.write = false;
    assert_eq!(pick(ready), TurnKind::Message);
    ready.message = false;
    assert_eq!(pick(ready), TurnKind::Wait);
}

#[test]
fn one_bump_is_under_way_at_a_time() {
    let pace = Pace {
        commit_delay: 5,
        idle_frequency: 100,
        heartbeat_interval: 20,
    };
    let alone = committer(None, None);
    let mut state = LoopState::start(pace, 1_000);
    let waits = state.waits(&alone, pace, 1_003);
    assert_eq!(waits.bump, Some(2));
    // A lone node tells nobody.
    assert_eq!(waits.heartbeat, None);
    assert_eq!(waits.replay, None);
    assert_eq!(state.begin_bump(1_006), 0);
    assert_eq!(state.waits(&alone, pace, 1_007).bump, None);
    assert_eq!(state.take_commit_id(), 1);
    state.end_bump(pace, 40);
    assert_eq!(state.next_bump_wait, Some(140));
    state.after_commit(pace);
    assert_eq!(state.next_bump_wait, Some(5));

    let raft = RaftState {
        partition: PartitionId(0),
        node_id: 1,
        is_leader: true,
        leader_id: 1,
    };
    let mut leader = committer(Some(placement(0)), Some(raft));
    assert_eq!(state.waits(&leader, pace, 1_010).heartbeat, Some(10));
    let told = state.heartbeat(&mut leader, Ok(400), 1_020);
    assert_eq!(told, Some(400));
    assert!(state.replay(&leader, 1_030));
}

#[test]
fn ids_go_to_what_may_be_queued() {
    let pace = Pace {
        commit_delay: 5,
        idle_frequency: 100,
        heartbeat_interval: 20,
    };
    let mut state = LoopState::start(pace, 0);
    assert!(state.begin_trace());
    assert!(!state.after_message(Handled::CommitQueued));
    assert_eq!(state.commit_id, 1);
    // The first write is traced still.
    assert!(!state.begin_trace());
    assert!(!state.after_message(Handled::CommitAnswered));
    assert!(!state.after_message(Handled::DeltaTaken));
    assert!(!state.after_message(Handled::DeltaFailed));
    assert!(!state.after_message(Handled::CheckpointQueued));
    assert!(!state.after_message(Handled::Answered));
    assert_eq!(state.commit_id, 3);
    assert_eq!(state.end_trace(1, Some(50), 40), None);
    assert_eq!(state.end_trace(0, Some(40), 40), Some(TraceEnd::Reported));
    assert_eq!(state.end_trace(0, Some(40), 40), None);
    // A commit that is refused is not traced.
    assert!(state.begin_trace());
    assert!(state.after_message(Handled::CommitAnswered));
    assert_eq!(state.span_commit_id, None);
    assert!(state.begin_trace());
    assert!(!state.after_message(Handled::BumpQueued));
    assert_eq!(state.end_trace(3, Some(39), 40), Some(TraceEnd::Dropped));
}

#[test]
fn leaders_propose_and_allocate() {
    let mut metrics = MetricsRecorder::new();
    let mut node = committer(Some(placement(0)), None);
    assert_eq!(node.propose_commit_to_raft(9).unwrap(), None);
    assert_eq!(node.propose_two_phase_prepare_to_raft("txn").unwrap(), None);
    let mut raft = RaftState {
        partition: PartitionId(0),
        node_id: 1,
        is_leader: true,
        leader_id: 1,
    };
    node.set_raft_state(raft);
    assert_eq!(node.propose_commit_to_raft(9).unwrap(), Some(raft));
    assert_eq!(node.allocate_commit_ts(&mut metrics, Ok(500)).unwrap(), 500);
    let beat = node.publish_remote_read_frontier_heartbeat(600).unwrap();
    assert!(beat.is_frontier_heartbeat());
    assert_eq!(beat.ts, 600);
    assert_eq!(beat.source_partition, Some(PartitionId(0)));

    raft.is_leader = false;
    raft.leader_id = 2;
    node.set_raft_state(raft);
    assert_eq!(
        node.propose_commit_to_raft(9).unwrap_err().message,
        "Raft leadership lost before proposing commit at ts=9 for partition partition-0"
    );
    assert_eq!(
        node.propose_two_phase_prepare_to_raft("txn")
            .unwrap_err()
            .message,
        "Raft leadership lost before proposing 2PC prepare for txn=txn on partition partition-0"
    );
    assert_eq!(
        node.allocate_commit_ts(&mut metrics, Ok(700))
            .unwrap_err()
            .message,
        "Not the Raft leader for partition partition-0. Current leader: node 2. Forward this \
         mutation to the leader."
    );
    assert_eq!(node.last_assigned_ts, 500);
    assert!(node.publish_remote_read_frontier_heartbeat(600).is_none());
}

#[test]
fn indexes_catch_up_with_what_was_committed() {
    let mut node = committer(None, None);
    assert_eq!(node.revisions_since_bootstrap(80), Some((80, 100)));
    assert_eq!(node.revisions_since_bootstrap(100), None);
    node.overwrite_latest_snapshot(100, SnapshotId(8), &vec![]);
    assert_eq!(node.latest_snapshot, SnapshotId(8));
    assert_eq!(node.latest_ts, 100);
    assert!(IndexUpdate::start(true, false).is_err());
    assert_eq!(
        IndexUpdate::start(false, true).unwrap_err().message,
        "Trying to update vector index while it's still bootstrapping"
    );
    let mut update = IndexUpdate::start(false, false).unwrap();
    update.count(Some(30));
    update.count(None);
    let mut metrics = MetricsRecorder::new();
    update.finish(&mut metrics);
    let samples = metrics.drain();
    assert_eq!(samples[0].amount, Amount::Count(2));
    assert_eq!(samples[1].amount, Amount::Count(30));
}

#[test]
fn measurements_are_kept_until_they_are_taken() {
    let mut metrics = MetricsRecorder::new();
    log_retention_documents_deleted(&mut metrics, 4);
    let timer = subscription_timer();
    timer.finish(&mut metrics, 250);
    log_subscription_invalidation_lag(&mut metrics, Some(90), 100);
    log_subscription_invalidation_lag(&mut metrics, None, 100);
    let samples = metrics.drain();
    assert_eq!(samples[0].kind, SampleKind::Counter);
    assert_eq!(samples[0].amount, Amount::Count(4));
    assert_eq!(samples[1].amount, Amount::Nanos(250));
    assert_eq!(samples[2].amount, Amount::Nanos(10));
    assert_eq!(samples[3].kind, SampleKind::Counter);
    assert!(metrics.drain().is_empty());

    let mut gauge = user_documents_size_subgauge();
    gauge.set(&mut metrics, 60);
    gauge.set(&mut metrics, 45);
    gauge.release(&mut metrics);
    let moves: Vec<Amount> = metrics.drain().iter().map(|s| s.amount).collect();
    assert_eq!(
        moves,
        vec![Amount::Count(60), Amount::Count(-15), Amount::Count(-45)]
    );
}

fn config() -> LocalConfig {
    LocalConfig {
        name: "node-a".to_string(),
        replication_mode: "primary".to_string(),
        nats_url: Some("nats://n".to_string()),
        partition_id: Some(1),
        num_partitions: Some(3),
        partition_map: Some("messages=1".to_string()),
        partition_map_version: Some(4),
        primary_grpc_url: Some("http://primary".to_string()),
        checkpoint_storage_path: Some("/checkpoints".to_string()),
        replica_storage_path: Some("/replica".to_string()),
        disable_beacon: false,
        raft_node_id: Some(7),
        raft_peers: Some("7=node-a:1, 8=https://node-b:2,x=y,9".to_string()),
        trust_interest: false,
    }
}

#[test]
fn partitions_consume_what_the_others_commit() {
    let mut config = config();
    let consumer = config.delta_consumer(None, 55).unwrap();
    assert_eq!(
        consumer.subjects,
        vec!["convex.commits.0".to_string(), "convex.commits.2".to_string()]
    );
    assert_eq!(consumer.from_ts, 0);
    assert!(!consumer.selective);
    assert_eq!(consumer.connection.consumer_name.as_deref(), Some("node-a"));

    config.num_partitions = None;
    let addresses = NodeAddresses::from_map(BTreeMap::from([(4, vec![]), (1, vec![])]));
    assert_eq!(
        config.remote_partitions(Some(&addresses)),
        Some(vec![PartitionId(4)])
    );

    config.trust_interest = true;
    let consumer = config.delta_consumer(None, 55).unwrap();
    assert!(consumer.selective);
    assert_eq!(
        consumer.connection.consumer_name.as_deref(),
        Some("node-a-selective")
    );
    assert_eq!(consumer.subjects[0], "convex.commits.node.node-a");

    config.partition_id = None;
    assert!(config.delta_consumer(None, 55).is_none());
    config.replication_mode = "replica".to_string();
    let consumer = config.delta_consumer(None, 55).unwrap();
    assert!(consumer.subjects.is_empty());
    assert_eq!(consumer.from_ts, 55);
}

#[test]
fn nodes_run_what_their_configuration_says() {
    let mut metrics = MetricsRecorder::new();
    let mut config = config();
    let log = config.distributed_log().unwrap();
    assert_eq!(log.partition_id, Some(1));
    assert_eq!(config.shared_services(), Some("nats://n"));
    assert_eq!(config.mutation_forwarding(), None);
    assert_eq!(config.checkpointer().unwrap(), Some("/checkpoints"));
    assert_eq!(config.checkpoint_to_install(true).unwrap(), None);
    assert_eq!(config.replica_storage().unwrap(), None);
    assert!(config.runs_beacon());
    assert_eq!(config.interest_publisher(), Some("nats://n"));
    assert!(config.shadow_consumer().is_none());
    assert_eq!(
        config.static_placement().unwrap().version(),
        PlacementVersion::new(4)
    );
    assert_eq!(
        config.static_partition_map().unwrap().local_partition(),
        PartitionId(1)
    );
    assert_eq!(config.placement_store().unwrap().0, "nats://n");

    config.partition_id = Some(0);
    assert_eq!(
        config
            .shadow_consumer()
            .unwrap()
            .consumer_name
            .as_deref(),
        Some("node-a-selective-shadow")
    );

    config.checkpoint_storage_path = None;
    assert_eq!(
        config.checkpointer().unwrap_err().message(),
        "CHECKPOINT_STORAGE_PATH is required in primary mode with NATS_URL"
    );
    config.replication_mode = "replica".to_string();
    config.replica_storage_path = None;
    assert_eq!(config.mutation_forwarding(), Some("http://primary"));
    assert_eq!(
        config.checkpoint_to_install(true).unwrap_err().message(),
        "CHECKPOINT_STORAGE_PATH is required to bootstrap a fresh replica from checkpoint"
    );
    assert_eq!(config.checkpoint_to_install(false).unwrap(), None);
    assert_eq!(
        config.replica_storage().unwrap_err().message(),
        "REPLICA_STORAGE_PATH is required in replica mode"
    );
    assert_eq!(
        found_checkpoint::<u8>(&mut metrics, "/checkpoints", None)
            .unwrap_err()
            .message(),
        "Fresh replica startup requires a checkpoint, but none was found at /checkpoints"
    );
    assert_eq!(found_checkpoint(&mut metrics, "/checkpoints", Some(3)).unwrap(), 3);
    log_replica_bootstrap_result(&mut metrics, true);
    let statuses: Vec<(&str, String)> = metrics
        .drain()
        .iter()
        .map(|s| (s.metric, s.labels[0].value.clone()))
        .collect();
    assert_eq!(
        statuses,
        vec![
            ("REPLICA_BOOTSTRAP_TOTAL", "error".to_string()),
            ("REPLICA_BOOTSTRAP_TOTAL", "success".to_string()),
        ]
    );
}

#[test]
fn raft_groups_are_read_from_their_peers() {
    let group = config().raft_group().unwrap();
    assert_eq!(group.node_id, 7);
    assert_eq!(group.partition, PartitionId(1));
    assert_eq!(group.ids(), vec![7, 8]);
    assert_eq!(
        group.grpc_urls(),
        BTreeMap::from([
            (7, "http://node-a:1".to_string()),
            (8, "https://node-b:2".to_string())
        ])
    );
    assert!(parse_raft_peers("").is_empty());
}

#[test]
fn workers_follow_authority() {
    // A lone node runs its workers from the start.
    assert!(WorkerSupervisor::start(false, None).is_none());
    let mut supervisor = WorkerSupervisor::start(false, Some(PartitionId(0))).unwrap();
    assert_eq!(supervisor.step(false), WorkerAction::Keep);
    assert_eq!(supervisor.step(true), WorkerAction::Start);
    assert_eq!(supervisor.step(true), WorkerAction::Keep);
    assert_eq!(supervisor.step(false), WorkerAction::Stop);
}

#[test]
fn consumers_back_off() {
    let mut backoff = ConsumerBackoff::new();
    let waits: Vec<u64> = (0..9).map(|_| backoff.next()).collect();
    assert_eq!(
        waits,
        vec![250, 500, 1_000, 2_000, 4_000, 8_000, 16_000, 30_000, 30_000]
    );
    assert_eq!(waits[8], MAX_CONSUMER_BACKOFF_MS);
}

#[test]
fn http_actions_share_one_route() {
    let mapper = HttpActionRouteMapper;
    assert_eq!(
        mapper.map_route("/http/users".to_string()),
        mapper.map_route("/http/other".to_string())
    );
    assert_eq!(mapper.map_route("/api/query".to_string()), "/api/query");
}
