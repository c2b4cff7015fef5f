use convex_cluster::committer::hot_path::{stage_timer, timestamp_timer, HotPath, HotStage};
use convex_cluster::committer::outbox::Replay;
use convex_cluster::committer::publish::{CommitPath, PublishFlow};
use convex_cluster::committer::raft::RaftAnswer;
use convex_cluster::committer::write::{WriteEvent, WriteFlow};
use convex_cluster::metrics::search::iterator_next_timer;
use convex_cluster::metrics::vector::vector_search_timer;
use convex_cluster::metrics::{
    bootstrap_timer, commit_hot_path_stage_timer, finish_bootstrap,
    finish_search_index_merge_timer, log_conflict_plan, log_document_retention_scanned_document,
    log_index_range, log_index_retention_scanned_document, log_raft_is_leader,
    log_raft_replication_health, log_retention_expired_index_entry, log_retention_ts_advanced,
    log_snapshot_verification_age, log_subscription_queue_length_delta, log_write_tx,
    reset_raft_replication_health, search_flush_merge_commit_timer,
    subscriptions_worker_full_error, Amount, MetricsRecorder, RetentionType, Sample, SampleKind,
    SearchIndexMergeType, SearchType, Timer, WriteSize,
};
use convex_cluster::partition::PartitionId;

fn labels(sample: &Sample) -> Vec<(&str, &str)> {
    sample
        .labels
        .iter()
        .map(|l| (l.name.as_str(), l.value.as_str()))
        .collect()
}

fn amounts(samples: &[Sample]) -> Vec<i128> {
    samples
        .iter()
        .map(|s| match s.amount {
            Amount::Count(n) => n,
            Amount::Nanos(n) => n,
        })
        .collect()
}

#[test]
fn raft_health_tells_whether_a_quorum_is_left() {
    let mut metrics = MetricsRecorder::new();
    log_raft_replication_health(&mut metrics, PartitionId(2), 3, 2, 1, 10, 12);
    let samples = metrics.drain();
    // Under-replicated, with a quorum.
    assert_eq!(amounts(&samples), vec![3, 2, 1, 10, 12, 1, 0]);
    assert_eq!(labels(&samples[6]), vec![("partition", "2")]);
    assert_eq!(samples[6].metric, "DATABASE_RAFT_QUORUM_UNAVAILABLE_INFO");
    log_raft_replication_health(&mut metrics, PartitionId(2), 4, 2, 2, 0, 0);
    assert_eq!(amounts(&metrics.drain()), vec![4, 2, 2, 0, 0, 1, 1]);
    reset_raft_replication_health(&mut metrics, PartitionId(2));
    assert_eq!(amounts(&metrics.drain()), vec![0; 7]);
    log_raft_is_leader(&mut metrics, PartitionId(2), true);
    let samples = metrics.drain();
    assert_eq!(samples[0].kind, SampleKind::Gauge);
    assert_eq!(samples[0].amount, Amount::Count(1));
}

#[test]
fn writes_are_measured_in_all_and_by_kind() {
    let mut metrics = MetricsRecorder::new();
    log_write_tx(
        &mut metrics,
        5,
        WriteSize {
            size: 100,
            num_writes: 2,
        },
        WriteSize {
            size: 30,
            num_writes: 1,
        },
    );
    assert_eq!(amounts(&metrics.drain()), vec![5, 130, 3, 100, 2, 30, 1]);
    log_index_range(&mut metrics, 7, 8, 9);
    assert_eq!(amounts(&metrics.drain()), vec![7, 8, 9]);
}

#[test]
fn retention_says_what_it_looked_at() {
    let mut metrics = MetricsRecorder::new();
    log_index_retention_scanned_document(&mut metrics, true, false);
    log_document_retention_scanned_document(&mut metrics, false, true);
    log_retention_expired_index_entry(&mut metrics, false, false);
    log_retention_expired_index_entry(&mut metrics, true, true);
    log_retention_expired_index_entry(&mut metrics, true, false);
    log_retention_ts_advanced(&mut metrics, RetentionType::Index);
    let samples = metrics.drain();
    assert_eq!(
        labels(&samples[0]),
        vec![("tombstone", "is_tombstone"), ("prev_rev", "no_prev_rev")]
    );
    assert_eq!(
        labels(&samples[1]),
        vec![("tombstone", "is_document"), ("prev_rev", "has_prev_rev")]
    );
    assert_eq!(labels(&samples[2]), vec![("reason", "overwritten")]);
    assert_eq!(labels(&samples[3]), vec![("reason", "key_change_tombstone")]);
    assert_eq!(labels(&samples[4]), vec![("reason", "tombstone")]);
    assert_eq!(labels(&samples[5]), vec![("type", "index")]);
}

#[test]
fn snapshots_outside_retention_are_counted() {
    let mut metrics = MetricsRecorder::new();
    log_snapshot_verification_age(&mut metrics, Some(100), 60, 70, true, false);
    let samples = metrics.drain();
    let names: Vec<&str> = samples.iter().map(|s| s.metric).collect();
    assert_eq!(
        names,
        vec![
            "OUTSIDE_RETENTION_TOTAL",
            "SNAPSHOT_AGE_SECONDS",
            "SNAPSHOT_BUFFER_VS_MIN_SNAPSHOT_SECONDS"
        ]
    );
    assert_eq!(amounts(&samples), vec![1, 40, -10]);
    assert_eq!(
        labels(&samples[0]),
        vec![("optimistic", "true"), ("leader", "false")]
    );
    log_snapshot_verification_age(&mut metrics, None, 80, 70, false, true);
    assert_eq!(amounts(&metrics.drain()), vec![10]);
}

#[test]
fn timers_say_how_long_and_how_it_went() {
    let mut metrics = MetricsRecorder::new();
    finish_bootstrap(&mut metrics, 3, 900, bootstrap_timer(), 50);
    let samples = metrics.drain();
    assert_eq!(amounts(&samples), vec![3, 900, 50]);

    let timer = search_flush_merge_commit_timer(SearchType::Text);
    finish_search_index_merge_timer(&mut metrics, timer, SearchIndexMergeType::Required, 60);
    let samples = metrics.drain();
    assert_eq!(samples[0].amount, Amount::Nanos(60));
    assert!(labels(&samples[0]).contains(&("merge_required", "required")));

    commit_hot_path_stage_timer("local", "raft_mark_applied").finish(&mut metrics, 70);
    let samples = metrics.drain();
    assert!(labels(&samples[0]).contains(&("path", "local")));
    assert!(labels(&samples[0]).contains(&("stage", "raft_mark_applied")));

    vector_search_timer().abandon(&mut metrics, 80);
    iterator_next_timer().finish(&mut metrics, 90);
    assert_eq!(amounts(&metrics.drain()), vec![80, 90]);
}

#[test]
fn loads_of_shards_are_listed_in_turn() {
    let mut metrics = MetricsRecorder::new();
    log_conflict_plan(
        &mut metrics,
        2,
        &vec![(PartitionId(1), 4, 5), (PartitionId(3), 6, 7)],
    );
    let samples = metrics.drain();
    assert_eq!(amounts(&samples), vec![2, 5, 4, 7, 6]);
    assert_eq!(labels(&samples[4]), vec![("partition", "3")]);
    log_subscription_queue_length_delta(&mut metrics, -2);
    let samples = metrics.drain();
    assert_eq!(samples[0].kind, SampleKind::GaugeChange);
    assert_eq!(samples[0].amount, Amount::Count(-2));
    let error = subscriptions_worker_full_error(&mut metrics);
    assert_eq!(error.short_msg, "SubscriptionsWorkerFullError");
}

#[test]
fn stages_of_a_commit_are_timed_apart() {
    let labels = |timer: Option<Timer>| {
        timer.map(|t| {
            assert_eq!(t.metric, "DATABASE_COMMIT_HOT_PATH_STAGE_SECONDS");
            let mut metrics = MetricsRecorder::new();
            t.finish(&mut metrics, 1);
            let sample = metrics.drain().remove(0);
            let values: Vec<String> = sample.labels.iter().map(|l| l.value.clone()).collect();
            values.join(" ")
        })
    };
    let named = |name: &str| Some(name.to_string());
    assert_eq!(
        labels(Some(timestamp_timer(true))),
        named("tso timestamp_allocate success")
    );
    assert_eq!(
        labels(Some(timestamp_timer(false))),
        named("local timestamp_allocate success")
    );
    assert_eq!(
        labels(Some(stage_timer(HotPath::Participant, HotStage::TwoPhaseRedo))),
        named("2pc_participant two_phase_redo success")
    );

    let mut write = WriteFlow::start(7);
    assert_eq!(labels(write.timer(true)), None);
    write.advance(WriteEvent::Proposed(Ok(())));
    assert_eq!(labels(write.timer(false)), None);
    assert_eq!(
        labels(write.timer(true)),
        named("local raft_quorum_wait success")
    );
    write.advance(WriteEvent::Answered(RaftAnswer::Committed { index: 3 }));
    assert_eq!(
        labels(write.timer(true)),
        named("local persistence_write success")
    );

    let source = Some(PartitionId(1));
    let mut publish = PublishFlow::start(CommitPath::Participant, 7, source, Some(3), true);
    for stage in [
        "raft_mark_applied",
        "raft_nats_outbox_record",
        "replication_publish",
        "raft_nats_outbox_clear",
    ] {
        assert_eq!(
            labels(publish.timer()),
            Some(format!("2pc_participant {stage} success"))
        );
        publish.advance(Ok(()));
    }
    assert_eq!(labels(publish.timer()), None);

    let mut replay = Replay::start(1);
    assert_eq!(
        labels(replay.timer()),
        named("raft_nats_outbox_replay replication_publish success")
    );
    replay.advance(Ok(())).unwrap();
    assert_eq!(
        labels(replay.timer()),
        named("raft_nats_outbox_replay raft_nats_outbox_clear success")
    );
    replay.advance(Ok(())).unwrap();
    assert_eq!(labels(replay.timer()), None);
}
