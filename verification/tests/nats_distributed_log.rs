use std::collections::BTreeMap;
use std::sync::Arc;

use convex_cluster::committer::delta::CommitDelta;
use convex_cluster::committer::MAX_TIMESTAMP;
use convex_cluster::documents::{Content, Document, DocumentId, DocumentUpdate};
use convex_cluster::metrics::{Amount, MetricsRecorder};
use convex_cluster::names::{TableName, TabletId, WriteSource};
use convex_cluster::nats_distributed_log::envelope::{DeltaEnvelope, EnvelopeError};
use convex_cluster::nats_distributed_log::{
    ConsumerProgress, MessageInfo, MessageStep, NatsConfig, NatsDistributedLog, PublishStage,
    RetentionGap, FRONTIER_HEARTBEAT_SUBJECT, SYSTEM_TABLE_SUBJECT,
};
use convex_cluster::partition::PartitionId;
use convex_cluster::selective_delivery::{
    InterestEvent, InterestRegistration, SelectiveDeliveryRegistry,
};

fn delta(ts: u64, tables: &[(u128, &str)], source_partition: Option<PartitionId>) -> CommitDelta {
    CommitDelta {
        ts,
        document_writes: Arc::new(Vec::new()),
        document_updates: Arc::new(Vec::new()),
        index_writes: Arc::new(Vec::new()),
        write_source: Arc::new(WriteSource::new("remote_read_frontier_heartbeat_test")),
        write_bytes: 0,
        tables: tables
            .iter()
            .map(|(tablet, name)| (*tablet, Arc::new(TableName::parse(name).unwrap())))
            .collect(),
        source_partition,
    }
}

fn update(tablet: u128) -> DocumentUpdate {
    let id = DocumentId {
        tablet: TabletId(tablet),
        number: 10_001,
        internal: 5,
    };
    DocumentUpdate {
        id,
        old_document: None,
        new_document: Some(Arc::new(Document {
            id,
            creation_time: 1,
            size: 3,
            content: Content::Data(Arc::new(vec![1, 2, 3])),
        })),
    }
}

fn node(name: Option<&str>, partition_id: Option<u32>) -> NatsConfig {
    NatsConfig {
        url: "nats://localhost:4222".to_string(),
        consumer_name: name.map(|n| n.to_string()),
        partition_id,
    }
}

fn interested(nodes: &[&str], table: &str) -> SelectiveDeliveryRegistry {
    let mut registry = SelectiveDeliveryRegistry::new("node-a".to_string());
    for n in nodes {
        registry.observe(InterestEvent::Put {
            node: n.to_string(),
            registration: Some(InterestRegistration {
                tables: vec![table.to_string()],
                updated_at_ms: 1_000,
            }),
        });
    }
    registry
}

#[test]
fn selective_node_subscriptions_include_frontier_heartbeats() {
    assert_eq!(
        NatsDistributedLog::selective_node_subjects("node-b"),
        vec![
            SelectiveDeliveryRegistry::node_subject("node-b"),
            SYSTEM_TABLE_SUBJECT.to_string(),
            FRONTIER_HEARTBEAT_SUBJECT.to_string(),
        ],
    );
}

#[test]
fn empty_source_partition_delta_is_frontier_heartbeat() {
    let heartbeat = delta(42, &[], Some(PartitionId(1)));
    assert!(NatsDistributedLog::is_frontier_heartbeat_delta(&heartbeat));

    let no_source = delta(42, &[], None);
    assert!(!NatsDistributedLog::is_frontier_heartbeat_delta(&no_source));
}

#[test]
fn retention_gap_detects_ack_floor_behind_first_retained() {
    assert_eq!(
        NatsDistributedLog::retention_gap(10, 100, 98, 98, 0),
        Some(RetentionGap {
            expected_stream_sequence: 99,
            first_retained_sequence: 100,
            ack_floor_stream_sequence: 98,
            delivered_stream_sequence: 98,
        }),
    );
}

#[test]
fn retention_gap_detects_fresh_from_beginning_after_retention() {
    assert_eq!(
        NatsDistributedLog::retention_gap(10, 2, 0, 0, 0),
        Some(RetentionGap {
            expected_stream_sequence: 1,
            first_retained_sequence: 2,
            ack_floor_stream_sequence: 0,
            delivered_stream_sequence: 0,
        }),
    );
}

#[test]
fn retention_gap_allows_contiguous_resume() {
    assert_eq!(
        NatsDistributedLog::retention_gap(10, 99, 98, 98, 0),
        None,
    );
}

#[test]
fn retention_gap_allows_empty_stream() {
    assert_eq!(NatsDistributedLog::retention_gap(0, 0, 0, 0, 0), None);
}

#[test]
fn retention_gap_allows_checkpointed_consumer_without_sequence() {
    assert_eq!(
        NatsDistributedLog::retention_gap(10, 100, 0, 0, 42),
        None,
    );
}

#[test]
fn subjects_are_one_for_each_partition() {
    assert_eq!(
        NatsDistributedLog::partition_subject(PartitionId(12)),
        "convex.commits.12"
    );
    assert_eq!(
        NatsDistributedLog::stream_subjects(),
        vec!["convex.commits".to_string(), "convex.commits.>".to_string()]
    );
    // Without a filter everything in the stream is consumed.
    assert!(NatsDistributedLog::filter_subjects(&None).is_empty());
    assert_eq!(
        NatsDistributedLog::filter_subjects(&Some(vec![PartitionId(2), PartitionId(0)])),
        vec!["convex.commits.2".to_string(), "convex.commits.0".to_string()]
    );
    assert_eq!(
        NatsDistributedLog::node_targeted_subjects("node-b"),
        vec![SelectiveDeliveryRegistry::node_subject("node-b")]
    );
}

#[test]
fn consumers_with_a_gap_are_refused() {
    let mut metrics = MetricsRecorder::new();
    let log = NatsDistributedLog::connect(&node(None, Some(3)), None, &mut metrics);
    assert_eq!(log.consumer_name(), "convex-node");
    assert_eq!(metrics.drain().len(), 3);

    let progress = ConsumerProgress {
        ack_floor_stream_sequence: 98,
        delivered_stream_sequence: 98,
        delivered_consumer_sequence: 7,
        num_pending: 4,
    };
    assert_eq!(
        log.begin_consuming(&mut metrics, 10, 100, progress, 5),
        Err(
            "NATS replication stream retention gap for consumer 'convex-node': next required \
             stream sequence 99 is older than first retained sequence 100 (ack_floor=98, \
             delivered=98, from_ts=5). Rebootstrap from checkpoint before serving."
                .to_string()
        )
    );
    let samples = metrics.drain();
    assert_eq!(samples.len(), 1);
    assert_eq!(
        samples[0].metric,
        "DATABASE_REPLICATION_TRANSPORT_RETENTION_GAPS_TOTAL"
    );

    assert_eq!(
        log.begin_consuming(&mut metrics, 10, 99, progress, 5),
        Ok(())
    );
    let samples = metrics.drain();
    assert_eq!(samples.len(), 3);
    assert_eq!(samples[0].amount, Amount::Count(4));
    assert_eq!(samples[1].amount, Amount::Count(98));
    assert_eq!(samples[2].amount, Amount::Count(7));
}

#[test]
fn lag_is_measured_unless_the_message_is_from_the_future() {
    let mut metrics = MetricsRecorder::new();
    let mut info = MessageInfo {
        pending: 1,
        stream_sequence: 2,
        consumer_sequence: 3,
        published_ns: 1_000,
        now_ns: 4_500,
    };
    NatsDistributedLog::measure_message(&mut metrics, 80, Some(info));
    let samples = metrics.drain();
    assert_eq!(samples.len(), 5);
    assert_eq!(samples[0].amount, Amount::Count(80));
    assert_eq!(samples[4].amount, Amount::Nanos(3_500));

    info.now_ns = 999;
    NatsDistributedLog::measure_message(&mut metrics, 80, Some(info));
    assert_eq!(metrics.drain().len(), 4);
    // A lag that no number can hold is left out; the rest is measured.
    info.published_ns = i128::MIN;
    NatsDistributedLog::measure_message(&mut metrics, 80, Some(info));
    assert_eq!(metrics.drain().len(), 4);
    NatsDistributedLog::measure_message(&mut metrics, 80, None);
    assert_eq!(metrics.drain().len(), 1);
}

#[test]
fn known_and_own_messages_are_skipped() {
    let mut metrics = MetricsRecorder::new();
    let log = NatsDistributedLog::connect(&node(Some("node-a"), None), None, &mut metrics);
    let from = |source: &str| {
        DeltaEnvelope::from_delta(&delta(10, &[], None), source, None, Ok(Vec::new())).unwrap()
    };

    assert!(matches!(
        log.inspect(9, Ok(&from("node-b"))),
        MessageStep::Open
    ));
    assert!(matches!(log.inspect(9, Ok(&from(""))), MessageStep::Open));
    match log.inspect(10, Ok(&from("node-b"))) {
        MessageStep::Skip { failure } => {
            assert_eq!(failure, "Failed to ack skipped NATS delta at ts=10: ")
        }
        step => panic!("unexpected {step:?}"),
    }
    match log.inspect(9, Ok(&from("node-a"))) {
        MessageStep::Skip { failure } => {
            assert_eq!(failure, "Failed to ack self-published NATS delta at ts=10: ")
        }
        step => panic!("unexpected {step:?}"),
    }
    match log.inspect(9, Err("no JSON")) {
        MessageStep::Terminate { error } => {
            assert_eq!(error, "Failed to deserialize delta: no JSON")
        }
        step => panic!("unexpected {step:?}"),
    }
}

#[test]
fn commits_go_to_interested_nodes_after_the_broadcast() {
    let mut metrics = MetricsRecorder::new();
    let registry = interested(&["node-c", "node-a", "node-b"], "messages");
    let log = NatsDistributedLog::connect(
        &node(Some("node-a"), Some(1)),
        Some(registry),
        &mut metrics,
    );
    metrics.drain();
    let mut commit = delta(10, &[(1, "messages")], Some(PartitionId(1)));
    commit.document_updates = Arc::new(vec![update(1)]);

    let mut stage = NatsDistributedLog::publish(&mut metrics, 64);
    let mut subjects = Vec::new();
    while let Some(subject) = log.subject(&stage) {
        subjects.push(subject);
        stage = log.acknowledged(stage, &commit, 2_000, &mut metrics);
    }
    assert!(matches!(stage, PublishStage::Done));
    // The node's own interest is no reason to send it its own commit.
    assert_eq!(
        subjects,
        vec![
            "convex.commits.1".to_string(),
            "convex.commits.node.node-b".to_string(),
            "convex.commits.node.node-c".to_string(),
        ]
    );
    let samples = metrics.drain();
    let samples: Vec<(&str, Amount)> = samples.iter().map(|s| (s.metric, s.amount)).collect();
    assert_eq!(
        samples,
        vec![
            (
                "DATABASE_REPLICATION_TRANSPORT_MESSAGE_BYTES",
                Amount::Count(64)
            ),
            (
                "DATABASE_SELECTIVE_DELIVERY_BROADCAST_DELTAS_TOTAL",
                Amount::Count(1)
            ),
            (
                "DATABASE_SELECTIVE_DELIVERY_STALE_REGISTRATIONS_INFO",
                Amount::Count(0)
            ),
            (
                "DATABASE_SELECTIVE_DELIVERY_INTEREST_CANDIDATES_TOTAL",
                Amount::Count(3)
            ),
            (
                "DATABASE_SELECTIVE_DELIVERY_INTEREST_HITS_TOTAL",
                Amount::Count(3)
            ),
            (
                "DATABASE_SELECTIVE_DELIVERY_TARGETED_DELIVERIES_TOTAL",
                Amount::Count(2)
            ),
        ]
    );
}

#[test]
fn system_tables_and_heartbeats_have_subjects_of_their_own() {
    let mut metrics = MetricsRecorder::new();
    let log = NatsDistributedLog::connect(&node(None, None), None, &mut metrics);
    let stage = PublishStage::Broadcast;
    assert_eq!(stage.send_failure(), "Failed to send publish to NATS");
    assert_eq!(
        stage.ack_failure(),
        "Failed to get publish acknowledgment from NATS"
    );

    let catalog = delta(10, &[(1, "messages"), (2, "_tables")], Some(PartitionId(1)));
    let stage = log.acknowledged(stage, &catalog, 0, &mut metrics);
    assert_eq!(log.subject(&stage), Some(SYSTEM_TABLE_SUBJECT.to_string()));
    assert_eq!(
        stage.send_failure(),
        "Failed to send selective-delivery system-table publish"
    );
    assert!(matches!(
        log.acknowledged(stage, &catalog, 0, &mut metrics),
        PublishStage::Done
    ));

    let heartbeat = delta(11, &[], Some(PartitionId(1)));
    let stage = log.acknowledged(PublishStage::Broadcast, &heartbeat, 0, &mut metrics);
    assert_eq!(
        log.subject(&stage),
        Some(FRONTIER_HEARTBEAT_SUBJECT.to_string())
    );
    assert_eq!(
        stage.ack_failure(),
        "Failed to get selective-delivery frontier heartbeat acknowledgment"
    );

    // Without a registry nobody is sent a commit in particular.
    let commit = delta(12, &[(1, "messages")], None);
    assert!(matches!(
        log.acknowledged(PublishStage::Broadcast, &commit, 0, &mut metrics),
        PublishStage::Done
    ));

    let to_nodes = PublishStage::Nodes {
        nodes: vec!["node-b".to_string()],
        next: 0,
    };
    assert_eq!(
        to_nodes.send_failure(),
        "Failed to send selective-delivery publish to node-b"
    );
    assert_eq!(
        to_nodes.ack_failure(),
        "Failed to get selective-delivery ack for target node node-b"
    );
}

#[test]
fn opened_envelopes_hold_what_was_sealed() {
    let tablet = 0x0123_4567_89ab_cdef_0011_2233_4455_6677u128;
    let mut sent = delta(10, &[(tablet, "messages"), (1, "_tables")], Some(PartitionId(4)));
    sent.write_bytes = 99;
    sent.document_updates = Arc::new(vec![update(tablet)]);
    let sealed =
        DeltaEnvelope::from_delta(&sent, "node-a", Some(3), Ok(vec![vec![7, 8]])).unwrap();
    assert_eq!(sealed.ts, 10);
    assert_eq!(sealed.source_raft_node_id(), Some(3));
    assert_eq!(sealed.document_updates_proto, vec![vec![7, 8]]);
    assert_eq!(
        sealed.tablet_mapping,
        vec![
            (
                "00000000000000000000000000000001".to_string(),
                "_tables".to_string()
            ),
            (
                "0123456789abcdef0011223344556677".to_string(),
                "messages".to_string()
            ),
        ]
    );

    let opened = sealed.to_delta(Ok(vec![update(tablet)])).unwrap();
    assert_eq!(opened.ts, 10);
    assert_eq!(opened.write_bytes, 99);
    assert_eq!(opened.source_partition, Some(PartitionId(4)));
    assert_eq!(
        opened.write_source.as_str(),
        Some("remote_read_frontier_heartbeat_test")
    );
    let tables: BTreeMap<u128, &str> = opened
        .tables
        .iter()
        .map(|(id, name)| (*id, name.as_str()))
        .collect();
    assert_eq!(tables, BTreeMap::from([(1, "_tables"), (tablet, "messages")]));
    assert_eq!(opened.document_updates.len(), 1);
}

#[test]
fn envelopes_that_cannot_be_opened_say_why() {
    assert_eq!(
        DeltaEnvelope::from_delta(&delta(1, &[], None), "a", None, Err("too big".to_string()))
            .err(),
        Some("too big".to_string())
    );
    let seal =
        |ts: u64| DeltaEnvelope::from_delta(&delta(ts, &[], None), "a", None, Ok(vec![])).unwrap();
    assert!(matches!(
        seal(1).to_delta(Err("bad proto".to_string())),
        Err(EnvelopeError::Updates(e)) if e == "bad proto"
    ));
    assert!(seal(MAX_TIMESTAMP).to_delta(Ok(vec![])).is_ok());
    assert!(matches!(
        seal(MAX_TIMESTAMP + 1).to_delta(Ok(vec![])),
        Err(EnvelopeError::Timestamp(ts)) if ts == MAX_TIMESTAMP + 1
    ));

    // Entries that are no tablet or no table name are passed over.
    let mut envelope = seal(2);
    envelope.tablet_mapping = vec![
        ("zz".to_string(), "messages".to_string()),
        ("00ff".to_string(), "messages".to_string()),
        (
            "0000000000000000000000000000000A".to_string(),
            "messages".to_string(),
        ),
        (
            "0000000000000000000000000000000b".to_string(),
            "no table".to_string(),
        ),
    ];
    let opened = envelope.to_delta(Ok(vec![])).unwrap();
    assert_eq!(opened.tables.len(), 1);
    assert_eq!(opened.tables[&10].as_str(), "messages");
}
