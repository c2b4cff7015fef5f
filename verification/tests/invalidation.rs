use std::collections::BTreeSet;
use std::sync::Arc;

use convex_cluster::documents::{Namespace, ReadSet, TableInfo, TableMapping};
use convex_cluster::invalidation::SubscriptionInterest;
use convex_cluster::metrics::{Amount, MetricsRecorder};
use convex_cluster::names::{TableName, TabletId, WriteSource};
use convex_cluster::partition::{PartitionId, PartitionMap};
use convex_cluster::table_set::TableSet;

fn written(tables: &[&str]) -> TableSet {
    let mut set = TableSet::new();
    for table in tables {
        set.insert(&TableName::parse(table).unwrap());
    }
    set
}

fn interest(tables: &[&str]) -> SubscriptionInterest {
    SubscriptionInterest::from_tables(written(tables))
}

#[test]
fn owning_shards_span_partitions_for_cross_partition_read_set() {
    // messages -> partition 1, projects -> partition 2, tasks -> default 0.
    let map = PartitionMap::from_config("messages=1,projects=2", PartitionId(0), 3);
    let ws = WriteSource::unknown();
    let sub = interest(&["messages", "projects"]);

    assert_eq!(sub.owning_shards(&map, &ws), BTreeSet::from([1, 2]));
    assert!(sub.is_cross_partition(&map, &ws));
}

#[test]
fn owning_shards_single_partition_is_not_cross_partition() {
    let map = PartitionMap::from_config("messages=1,authors=1", PartitionId(0), 3);
    let ws = WriteSource::unknown();
    let sub = interest(&["messages", "authors"]);

    assert_eq!(sub.owning_shards(&map, &ws), BTreeSet::from([1]));
    assert!(!sub.is_cross_partition(&map, &ws));
}

#[test]
fn invalidated_by_intersecting_write() {
    let mut metrics = MetricsRecorder::new();
    let sub = interest(&["messages", "users"]);
    // A write touching `messages` (and an unrelated table) invalidates it.
    assert!(sub.invalidated_by(&mut metrics, &written(&["messages", "logs"])));
}

#[test]
fn not_invalidated_by_disjoint_write() {
    let mut metrics = MetricsRecorder::new();
    let sub = interest(&["messages", "users"]);
    assert!(!sub.invalidated_by(&mut metrics, &written(&["logs", "events"])));
}

#[test]
fn cross_partition_sub_invalidated_by_write_on_either_shard() {
    let mut metrics = MetricsRecorder::new();
    // A subscription reading two tables on two partitions is invalidated by a
    // write to either table: registering with both shards is what makes that
    // hold regardless of which partition commits.
    let sub = interest(&["messages", "projects"]);
    assert!(sub.invalidated_by(&mut metrics, &written(&["messages"])));
    assert!(sub.invalidated_by(&mut metrics, &written(&["projects"])));
}

#[test]
fn empty_interest_matches_nothing() {
    let mut metrics = MetricsRecorder::new();
    let sub = SubscriptionInterest::default();
    assert!(sub.is_empty());
    assert!(!sub.invalidated_by(&mut metrics, &written(&["messages"])));
}

#[test]
fn interest_of_a_read_set_names_every_table_it_reads() {
    let mut metrics = MetricsRecorder::new();
    let info = |tablet: u128, name: &str| TableInfo {
        tablet: TabletId(tablet),
        namespace: Namespace::Global,
        number: 10_000,
        name: Arc::new(TableName::parse(name).unwrap()),
        active: true,
    };
    let mapping = TableMapping {
        tables: vec![info(1, "messages"), info(2, "projects"), info(3, "tasks")],
    };
    let reads = ReadSet {
        indexed: vec![TabletId(1), TabletId(7)],
        search: vec![TabletId(2)],
    };
    let sub = SubscriptionInterest::from_read_set(&reads, &mapping);
    assert_eq!(sub.tables().len(), 2);
    assert!(sub.invalidated_by(&mut metrics, &written(&["messages"])));
    assert!(sub.invalidated_by(&mut metrics, &written(&["projects"])));
    assert!(!sub.invalidated_by(&mut metrics, &written(&["tasks"])));

    let map = PartitionMap::from_config("messages=1,projects=2", PartitionId(0), 3);
    assert_eq!(
        sub.register(&mut metrics, &map, &WriteSource::unknown()),
        BTreeSet::from([1, 2])
    );
    // Every node has its own system tables.
    assert!(interest(&["_modules"])
        .register(&mut metrics, &map, &WriteSource::unknown())
        .is_empty());
}

#[test]
fn matches_and_registrations_are_measured() {
    let mut metrics = MetricsRecorder::new();
    let map = PartitionMap::from_config("messages=1,projects=2", PartitionId(0), 3);
    let sub = interest(&["messages", "projects"]);
    sub.invalidated_by(&mut metrics, &written(&["tasks"]));
    assert!(metrics.drain().is_empty());
    sub.invalidated_by(&mut metrics, &written(&["messages"]));
    sub.register(&mut metrics, &map, &WriteSource::unknown());
    let samples: Vec<(&str, Amount)> = metrics
        .drain()
        .iter()
        .map(|s| (s.metric, s.amount))
        .collect();
    assert_eq!(
        samples,
        vec![
            ("DATABASE_CONSERVATIVE_INVALIDATIONS_TOTAL", Amount::Count(1)),
            (
                "DATABASE_INVALIDATION_REGISTRATION_SHARDS_TOTAL",
                Amount::Count(2)
            ),
        ]
    );
}
