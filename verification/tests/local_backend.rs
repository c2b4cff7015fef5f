use convex_cluster::committer::{RaftState, MIN_TIMESTAMP};
use convex_cluster::local_backend::{
    application_worker_startup_policy, replica_delta_consumer_start_ts,
    should_run_cluster_singleton_workers, ApplicationWorkerStartupPolicy, RaftAuthority,
};
use convex_cluster::partition::PartitionId;

#[test]
fn partitioned_replica_consumers_do_not_start_from_local_snapshot_ts() {
    let local_snapshot_ts = 1_000_000u64;
    assert_eq!(
        replica_delta_consumer_start_ts(local_snapshot_ts, Some(0)),
        MIN_TIMESTAMP,
    );
    assert_eq!(
        replica_delta_consumer_start_ts(local_snapshot_ts, Some(1)),
        MIN_TIMESTAMP,
    );
    assert_eq!(
        replica_delta_consumer_start_ts(local_snapshot_ts, None),
        local_snapshot_ts,
    );
}

#[test]
fn cluster_singleton_workers_follow_coordinator_authority() {
    assert!(should_run_cluster_singleton_workers(false, None, None));
    assert!(!should_run_cluster_singleton_workers(true, None, None));
    assert!(should_run_cluster_singleton_workers(
        false,
        Some(PartitionId(0)),
        None,
    ));
    assert!(!should_run_cluster_singleton_workers(
        false,
        Some(PartitionId(1)),
        None,
    ));
    let mut raft_state = RaftAuthority {
        state: RaftState {
            partition: PartitionId(0),
            node_id: 1,
            is_leader: true,
            leader_id: 1,
        },
        has_leader_serving_lease: true,
    };
    assert!(should_run_cluster_singleton_workers(
        false,
        Some(PartitionId(0)),
        Some(&raft_state),
    ));
    raft_state.has_leader_serving_lease = false;
    assert!(!should_run_cluster_singleton_workers(
        false,
        Some(PartitionId(0)),
        Some(&raft_state),
    ));
}

#[test]
fn application_workers_fail_closed_for_clustered_nodes() {
    assert_eq!(
        application_worker_startup_policy("primary", None),
        ApplicationWorkerStartupPolicy::SingleNode,
    );
    assert_eq!(
        application_worker_startup_policy("replica", None),
        ApplicationWorkerStartupPolicy::ClusteredFailClosed,
    );
    assert_eq!(
        application_worker_startup_policy("primary", Some(PartitionId(0))),
        ApplicationWorkerStartupPolicy::ClusteredFailClosed,
    );
    assert_eq!(
        application_worker_startup_policy("primary", Some(PartitionId(1))),
        ApplicationWorkerStartupPolicy::ClusteredFailClosed,
    );
}
