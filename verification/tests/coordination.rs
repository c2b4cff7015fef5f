use std::collections::BTreeMap;
use std::sync::Arc;

use convex_cluster::committer::staging::{FinalTransaction, PrepareResult};
use convex_cluster::committer::{CommitError, CommitOutcome};
use convex_cluster::documents::{
    Content, Document, DocumentId, DocumentWrite, Namespace, ReadSet, TableInfo, TableMapping,
};
use convex_cluster::metrics::{Amount, MetricsRecorder};
use convex_cluster::names::{TableName, TabletId, WriteSource};
use convex_cluster::partition::{PartitionId, PartitionMap};
use convex_cluster::two_phase::NodeAddresses;
use convex_cluster::two_phase_coordinator::coordination::{
    coordinate_two_phase_commit, Coordination, Event, Phase, MAX_PREPARE_TS_RETRIES,
};
use convex_cluster::two_phase_coordinator::decision::{
    route_to, write_decision_record, AddressWalk, Request, Route, TwoPhaseDecision,
};
use convex_cluster::two_phase_coordinator::errors::{
    full_message, is_unknown_rollback_error, message_says_unknown, message_suggests_no_contact,
    messages_say_timestamp_passed, should_try_next_participant_address,
};
use convex_cluster::two_phase_coordinator::{
    classify_transaction, participant_write_indexes, verify_prepare_result,
    TransactionClassification,
};

fn info(tablet: u128, name: &str) -> TableInfo {
    TableInfo {
        tablet: TabletId(tablet),
        namespace: Namespace::Global,
        number: 10_000,
        name: Arc::new(TableName::parse(name).unwrap()),
        active: true,
    }
}

/// A transaction that reads and writes tables: 1 is `a`, of partition 1, 2 is
/// `b`, of partition 2, 3 is `c`, of partition 0, and 4 is a system table.
fn transaction(read: &[u128], written: &[u128]) -> FinalTransaction {
    FinalTransaction {
        begin_ts: 100,
        reads: ReadSet {
            indexed: read.iter().map(|t| TabletId(*t)).collect(),
            search: Vec::new(),
        },
        writes: written
            .iter()
            .map(|t| {
                let id = DocumentId {
                    tablet: TabletId(*t),
                    number: 10_000,
                    internal: 1,
                };
                DocumentWrite {
                    id,
                    old_document: None,
                    new_document: Some(Arc::new(Document {
                        id,
                        creation_time: 1,
                        size: 1,
                        content: Content::Data(Arc::new(Vec::new())),
                    })),
                }
            })
            .collect(),
        table_mapping: TableMapping {
            tables: vec![info(1, "a"), info(2, "b"), info(3, "c"), info(4, "_modules")],
        },
    }
}

fn partition_map(local: u32) -> PartitionMap {
    PartitionMap::from_config("a=1,b=2", PartitionId(local), 3)
}

fn failure(message: &str) -> Event {
    Event::Failed(CommitError::new(message.to_string()))
}

fn begin(metrics: &mut MetricsRecorder) -> Coordination {
    coordinate_two_phase_commit(
        metrics,
        &transaction(&[3], &[2, 1, 2]),
        &WriteSource::unknown(),
        &partition_map(0),
    )
    .unwrap()
}

#[test]
fn transactions_are_classified_by_the_owners_of_their_writes() {
    let source = WriteSource::unknown();
    assert!(matches!(
        classify_transaction(&transaction(&[1, 2], &[3]), &partition_map(0), &source),
        TransactionClassification::SinglePartition
    ));
    // Only system tables are written.
    assert!(matches!(
        classify_transaction(&transaction(&[], &[4]), &partition_map(2), &source),
        TransactionClassification::SinglePartition
    ));
    assert!(matches!(
        classify_transaction(&transaction(&[], &[1]), &partition_map(0), &source),
        TransactionClassification::RemoteSinglePartition { owner } if owner == PartitionId(1)
    ));
    assert!(matches!(
        classify_transaction(&transaction(&[], &[1, 2]), &partition_map(1), &source),
        TransactionClassification::CrossPartition { .. }
    ));
    assert_eq!(
        participant_write_indexes(&transaction(&[], &[2, 1, 4, 2]), &partition_map(1), &source),
        BTreeMap::from([(1, vec![1]), (2, vec![0, 3])])
    );
}

#[test]
fn local_transactions_need_no_coordinator() {
    let mut metrics = MetricsRecorder::new();
    let err = coordinate_two_phase_commit(
        &mut metrics,
        &transaction(&[], &[3]),
        &WriteSource::unknown(),
        &partition_map(0),
    )
    .unwrap_err();
    assert_eq!(
        err.message,
        "2PC coordinator called for a local single-partition transaction"
    );
    assert!(metrics.drain().is_empty());
}

#[test]
fn coordinators_begin_with_the_owners_in_order() {
    let mut metrics = MetricsRecorder::new();
    let coordination = begin(&mut metrics);
    assert_eq!(coordination.participants, vec![1, 2]);
    assert_eq!(coordination.source_partition, None);
    assert_eq!(coordination.phase, Phase::Allocate);
    // Three shards are measured, each with its writes and reads, and the number
    // of participants.
    let samples = metrics.drain();
    assert_eq!(samples.len(), 8);
    assert_eq!(samples[0].metric, "DATABASE_CONFLICT_CHECK_SHARDS_TOTAL");
    assert_eq!(samples[0].amount, Amount::Count(3));
    assert_eq!(samples[5].metric, "DATABASE_CONFLICT_CHECK_SHARD_WRITES_TOTAL");
    assert_eq!(samples[5].amount, Amount::Count(2));
    assert_eq!(samples[7].metric, "DATABASE_TWO_PHASE_PARTICIPANTS_TOTAL");
    assert_eq!(samples[7].amount, Amount::Count(2));

    let remote = coordinate_two_phase_commit(
        &mut metrics,
        &transaction(&[], &[2]),
        &WriteSource::unknown(),
        &partition_map(0),
    )
    .unwrap();
    assert_eq!(remote.source_partition, Some(PartitionId(2)));
}

#[test]
fn everyone_prepares_before_anyone_commits() {
    let mut metrics = MetricsRecorder::new();
    let mut c = begin(&mut metrics);
    metrics.drain();
    let mut phases = Vec::new();
    let events = vec![
        Event::Allocated("txn".to_string(), 70),
        Event::Prepared(70),
        Event::Prepared(70),
        Event::Done,
        Event::Committed(70),
        Event::Done,
        Event::Committed(70),
        Event::Done,
    ];
    for event in events {
        c.advance(&mut metrics, event);
        phases.push(c.phase);
    }
    assert_eq!(
        phases,
        vec![
            Phase::Prepare(0),
            Phase::Prepare(1),
            Phase::RecordCommit,
            Phase::Commit(0),
            Phase::MarkCommitted(0),
            Phase::Commit(1),
            Phase::MarkCommitted(1),
            Phase::Done,
        ]
    );
    assert_eq!(
        c.outcome(),
        CommitOutcome {
            ts: 70,
            source_partition: None
        }
    );
}

#[test]
fn passed_timestamps_are_tried_again() {
    let mut metrics = MetricsRecorder::new();
    let mut c = begin(&mut metrics);
    for attempt in 0..MAX_PREPARE_TS_RETRIES {
        assert_eq!(c.phase, Phase::Allocate);
        assert_eq!(c.attempt, attempt);
        c.advance(&mut metrics, Event::Allocated(format!("txn-{attempt}"), 70));
        c.advance(&mut metrics, Event::Prepared(70));
        // The second participant is ahead. It was reached, so only the first is
        // rolled back.
        c.advance(
            &mut metrics,
            failure("2PC Prepare assigned ts=70 but this participant requires ts>=80"),
        );
        assert_eq!(c.phase, Phase::RecordRollback(1));
        c.advance(&mut metrics, Event::Done);
        assert_eq!(c.phase, Phase::Rollback(1));
        c.advance(&mut metrics, Event::Done);
        assert_eq!(c.phase, Phase::MarkRolledBack(1));
        c.advance(&mut metrics, Event::Done);
    }
    assert_eq!(c.phase, Phase::Failed);
    assert_eq!(
        c.error.unwrap().message,
        "2PC Prepare assigned ts=70 but this participant requires ts>=80"
    );
}

#[test]
fn participants_that_may_have_prepared_are_rolled_back() {
    let mut metrics = MetricsRecorder::new();
    let mut c = begin(&mut metrics);
    c.advance(&mut metrics, Event::Allocated("txn".to_string(), 70));
    c.advance(&mut metrics, Event::Prepared(70));
    c.advance(&mut metrics, failure("gRPC Prepare failed: transport error"));
    // Nobody knows whether the second participant got the request.
    assert_eq!(c.phase, Phase::RecordRollback(2));

    // A refusal of the first participant leaves nothing to roll back.
    let mut c = begin(&mut metrics);
    c.advance(&mut metrics, Event::Allocated("txn".to_string(), 70));
    c.advance(&mut metrics, failure("no"));
    assert_eq!(c.phase, Phase::Failed);
    assert_eq!(c.error.unwrap().message, "no");
}

#[test]
fn undecided_transactions_fail() {
    let mut metrics = MetricsRecorder::new();
    let mut c = begin(&mut metrics);
    c.advance(&mut metrics, Event::Allocated("txn".to_string(), 70));
    c.advance(&mut metrics, Event::Prepared(70));
    c.advance(&mut metrics, Event::Prepared(70));
    c.advance(&mut metrics, failure("kv"));
    assert_eq!(c.phase, Phase::Failed);
    assert_eq!(
        c.error.unwrap().message,
        "2PC Coordinator: failed to write commit decision for txn=txn: kv"
    );
}

#[test]
fn participants_prepare_at_the_timestamp_they_are_given() {
    let at = |ts: u64| PrepareResult { prepare_ts: ts };
    assert!(verify_prepare_result(PartitionId(1), 70, at(70)).is_ok());
    assert_eq!(
        verify_prepare_result(PartitionId(1), 70, at(71))
            .unwrap_err()
            .message,
        "Participant partition-1 prepared at ts=71 but coordinator assigned ts=70"
    );
}

#[test]
fn decisions_are_made_once() {
    let commit = TwoPhaseDecision::committed(70, vec![1, 2]);
    let rollback = TwoPhaseDecision::rolled_back("no".to_string(), vec![1]);
    assert!(write_decision_record("txn", &commit, "commit", true, None).is_ok());
    assert!(write_decision_record(
        "txn",
        &commit,
        "commit",
        false,
        Some((&TwoPhaseDecision::committed(70, vec![1, 2]), "commit"))
    )
    .is_ok());
    assert_eq!(
        write_decision_record("txn", &commit, "commit", false, None)
            .unwrap_err()
            .message,
        "2PC Coordinator: decision for txn=txn already existed but could not be read"
    );
    assert_eq!(
        write_decision_record(
            "txn",
            &commit,
            "Commit [1, 2]",
            false,
            Some((&rollback, "Rollback [1]"))
        )
        .unwrap_err()
        .message,
        "2PC Coordinator: durable decision for txn=txn is already Rollback [1], cannot overwrite \
         with Commit [1, 2]"
    );
}

#[test]
fn decisions_are_kept_until_everyone_has_followed() {
    let mut decision = TwoPhaseDecision::committed(70, vec![1, 2]);
    assert!(!decision.all_participants_resolved());
    assert!(!decision.mark_participant_resolved(PartitionId(1)));
    assert!(!decision.mark_participant_resolved(PartitionId(1)));
    assert_eq!(decision.resolved, vec![1]);
    assert!(decision.mark_participant_resolved(PartitionId(2)));
    assert!(decision.all_participants_resolved());
}

#[test]
fn participants_are_reached_at_their_addresses() {
    let addresses = NodeAddresses::from_map(BTreeMap::from([
        (1, vec!["http://one".to_string(), "http://uno".to_string()]),
        (2, vec![]),
    ]));
    let local = PartitionId(0);
    let route = |p: u32, a: Option<&NodeAddresses>| {
        route_to(Request::Commit, PartitionId(p), local, a).map_err(|e| e.message)
    };
    assert_eq!(route(0, None), Ok(Route::Local));
    assert_eq!(route(1, Some(&addresses)), Ok(Route::Remote(2)));
    assert_eq!(
        route(2, Some(&addresses)),
        Err("Missing NODE_ADDRESSES entry for partition-2".to_string())
    );
    assert_eq!(
        route(1, None),
        Err(
            "NODE_ADDRESSES is required to route commit to the authoritative owner partition-1"
                .to_string()
        )
    );

    let mut walk = AddressWalk::start(2);
    let err = |s: &str| CommitError::new(s.to_string());
    assert!(walk.failed(err("connection refused: transport error")).is_ok());
    assert_eq!(walk.next, 1);
    assert_eq!(
        walk.failed(err("transport error")).unwrap_err().message,
        "transport error"
    );
    let mut walk = AddressWalk::start(2);
    assert!(walk.failed(err("forced prepare failure")).is_err());
    assert_eq!(walk.next, 0);
}

#[test]
fn errors_are_read_through_their_causes() {
    let err = anyhow::Error::msg("transport error").context("gRPC Commit failed");
    assert!(should_try_next_participant_address(&err));
    assert!(!should_try_next_participant_address(&anyhow::Error::msg(
        "forced commit failure"
    )));
    let err = anyhow::Error::msg("2PC RollbackPrepared: unknown transaction txn")
        .context("gRPC Rollback failed");
    assert!(is_unknown_rollback_error(&err));
    assert!(!is_unknown_rollback_error(&anyhow::Error::msg("busy")));

    let messages = vec!["outer".to_string(), "inner".to_string()];
    assert_eq!(full_message(&messages), "outer: inner");
    assert!(message_suggests_no_contact("TRANSPORT error"));
    assert!(!message_suggests_no_contact("all is well"));
    assert!(message_says_unknown(
        "2PC RollbackPrepared: unknown transaction txn"
    ));
    assert!(messages_say_timestamp_passed(&vec![
        "outer".to_string(),
        "2PC Prepare assigned ts=1 but this participant requires ts>=2".to_string()
    ]));
    assert!(!messages_say_timestamp_passed(&messages));
}

#[test]
fn decisions_name_those_they_concern() {
    let mut metrics = MetricsRecorder::new();
    let mut c = begin(&mut metrics);
    assert!(c.decision().is_none());
    c.advance(&mut metrics, Event::Allocated("txn".to_string(), 70));
    c.advance(&mut metrics, Event::Prepared(70));
    c.advance(&mut metrics, Event::Prepared(70));
    assert_eq!(c.phase, Phase::RecordCommit);
    assert!(c
        .decision()
        .unwrap()
        .is_same(&TwoPhaseDecision::committed(70, vec![1, 2])));

    // The reason is what the outermost part of the error says.
    let mut c = begin(&mut metrics);
    c.advance(&mut metrics, Event::Allocated("txn".to_string(), 70));
    c.advance(&mut metrics, Event::Prepared(70));
    c.advance(
        &mut metrics,
        Event::Refused(
            CommitError::new("prepare failed: disk full".to_string()),
            "prepare failed".to_string(),
        ),
    );
    assert_eq!(c.phase, Phase::RecordRollback(1));
    assert!(c.decision().unwrap().is_same(&TwoPhaseDecision::rolled_back(
        "prepare failed".to_string(),
        vec![1]
    )));
    c.advance(&mut metrics, Event::Done);
    assert!(c.decision().is_none());

    let mut c = begin(&mut metrics);
    c.advance(&mut metrics, Event::Allocated("txn".to_string(), 70));
    c.advance(&mut metrics, Event::Prepared(70));
    c.advance(&mut metrics, Event::Prepared(71));
    let reason = c.error.as_ref().unwrap().message.clone();
    assert!(c
        .decision()
        .unwrap()
        .is_same(&TwoPhaseDecision::rolled_back(reason, vec![1])));
}
