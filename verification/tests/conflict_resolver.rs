use std::collections::{BTreeMap, BTreeSet};
use std::sync::Arc;

use convex_cluster::conflict_resolver::{remote_read_conflict_partitions, ConflictPlan};
use convex_cluster::documents::{Namespace, ReadSet, TableInfo, TableMapping};
use convex_cluster::metrics::{Amount, MetricsRecorder, Sample};
use convex_cluster::names::{TableName, TabletId, WriteSource};
use convex_cluster::partition::{PartitionId, PartitionMap};

fn no_reads() -> ReadSet {
    ReadSet {
        indexed: Vec::new(),
        search: Vec::new(),
    }
}

fn plan_with_writes(write_indexes: BTreeMap<u32, Vec<usize>>) -> ConflictPlan {
    // Local partition 0 of three; nothing is read, so only writes shape the plan.
    let partition_map = PartitionMap::from_config("a=1,b=2", PartitionId(0), 3);
    ConflictPlan::build(
        &no_reads(),
        &TableMapping { tables: Vec::new() },
        &partition_map,
        &WriteSource::unknown(),
        &write_indexes,
    )
}

fn table_info(tablet: u128, name: &str) -> TableInfo {
    TableInfo {
        tablet: TabletId(tablet),
        namespace: Namespace::Global,
        number: 10_000,
        name: Arc::new(TableName::parse(name).unwrap()),
        active: true,
    }
}

/// Tablets 1 to 4 are the tables a, b, c and _modules.
fn mapping() -> TableMapping {
    TableMapping {
        tables: vec![
            table_info(1, "a"),
            table_info(2, "b"),
            table_info(3, "c"),
            table_info(4, "_modules"),
        ],
    }
}

fn labelled(sample: &Sample) -> (&str, Amount, Vec<(&str, &str)>) {
    (
        sample.metric,
        sample.amount,
        sample
            .labels
            .iter()
            .map(|l| (l.name.as_str(), l.value.as_str()))
            .collect(),
    )
}

#[test]
fn test_empty_plan_has_no_shards() {
    let plan = plan_with_writes(BTreeMap::new());
    assert_eq!(plan.num_shards(), 0);
    assert!(!plan.is_cross_shard());
    assert!(plan.remote_read_partitions().is_empty());
    assert!(plan.write_partitions().is_empty());
    assert_eq!(plan.local_partition(), PartitionId(0));
}

#[test]
fn test_writes_spanning_partitions_are_cross_shard() {
    let plan = plan_with_writes(BTreeMap::from([(1, vec![0, 1]), (2, vec![2])]));
    assert_eq!(plan.num_shards(), 2);
    assert!(plan.is_cross_shard());
    assert_eq!(plan.write_partitions(), BTreeSet::from([1, 2]));
    assert_eq!(plan.shards()[&1].write_count, 2);
    assert_eq!(plan.shards()[&2].write_count, 1);
    // No reads were recorded, so there are no remote read shards.
    assert!(plan.remote_read_partitions().is_empty());
}

#[test]
fn test_single_write_shard_is_not_cross_shard() {
    let plan = plan_with_writes(BTreeMap::from([(1, vec![0])]));
    assert_eq!(plan.num_shards(), 1);
    assert!(!plan.is_cross_shard());
    assert_eq!(plan.write_partitions(), BTreeSet::from([1]));
}

#[test]
fn test_empty_write_index_entries_are_ignored() {
    let plan = plan_with_writes(BTreeMap::from([(1, vec![]), (2, vec![0])]));
    // Partition 1 has no actual writes, so it is not a conflict shard.
    assert_eq!(plan.num_shards(), 1);
    assert_eq!(plan.write_partitions(), BTreeSet::from([2]));
}

#[test]
fn test_record_metrics_does_not_panic() {
    let plan = plan_with_writes(BTreeMap::from([(1, vec![0, 1]), (2, vec![2])]));
    let mut metrics = MetricsRecorder::new();
    plan.record_metrics(&mut metrics);
    let samples = metrics.drain();
    assert_eq!(samples.len(), 5);
    assert_eq!(
        labelled(&samples[0]),
        ("DATABASE_CONFLICT_CHECK_SHARDS_TOTAL", Amount::Count(2), vec![])
    );
    assert_eq!(
        labelled(&samples[1]),
        (
            "DATABASE_CONFLICT_CHECK_SHARD_WRITES_TOTAL",
            Amount::Count(2),
            vec![("partition", "1")]
        )
    );
    assert_eq!(
        labelled(&samples[4]),
        (
            "DATABASE_CONFLICT_CHECK_SHARD_READS_TOTAL",
            Amount::Count(0),
            vec![("partition", "2")]
        )
    );
}

#[test]
fn reads_are_checked_by_the_owner_of_their_table() {
    let partition_map = PartitionMap::from_config("a=1,b=2", PartitionId(0), 3);
    // Tablet 9 is unknown and is checked by nobody.
    let reads = ReadSet {
        indexed: vec![TabletId(1), TabletId(3), TabletId(9), TabletId(1)],
        search: vec![TabletId(2)],
    };
    let plan = ConflictPlan::build(
        &reads,
        &mapping(),
        &partition_map,
        &WriteSource::unknown(),
        &BTreeMap::from([(1, vec![0])]),
    );
    assert_eq!(plan.num_shards(), 3);
    assert_eq!(plan.remote_read_partitions(), BTreeSet::from([1, 2]));
    assert_eq!(plan.write_partitions(), BTreeSet::from([1]));
    assert_eq!(plan.shards()[&1].read_tables.len(), 1);
    assert!(plan.shards()[&1]
        .read_tables
        .contains(&TableName::parse("a").unwrap()));
    assert_eq!(plan.shards()[&0].write_count, 0);
    assert!(!plan.shards()[&0].is_empty());
    assert_eq!(
        remote_read_conflict_partitions(
            &reads,
            &mapping(),
            &partition_map,
            &WriteSource::unknown(),
        ),
        BTreeSet::from([1, 2])
    );
}
