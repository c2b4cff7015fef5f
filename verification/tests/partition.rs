use std::collections::BTreeMap;

use convex_cluster::metrics::{Amount, MetricsRecorder};
use convex_cluster::names::{TableName, WriteSource};
use convex_cluster::partition::{
    routed_partition_for_table, uses_metadata_owner, PartitionId, PartitionMap, PlacementError,
    PlacementMetadata, PlacementMetadataSource, PlacementTarget, PlacementVersion,
    StaticPlacementConfig, DEFAULT_PARTITION, STATIC_VERSION,
};
use convex_cluster::placement::{
    plan_publish, refresh_placement_once, InMemoryPlacementMetadataStore, PlacementRefreshTarget,
    PlacementState, PublishStep, RecordError, SerializedPlacementMetadata,
};
use convex_cluster::text_map::TextMap;
use convex_cluster::two_phase::NodeAddresses;

fn table(name: &str) -> TableName {
    TableName::parse(name).unwrap()
}

fn config(table_assignments: &str, num_partitions: u32, version: u64) -> PlacementMetadata {
    PlacementMetadata::from_static_config(StaticPlacementConfig {
        table_assignments,
        num_partitions,
        placement_version: PlacementVersion::new(version),
    })
}

fn members(entries: &[(u32, &str)]) -> BTreeMap<u32, Vec<String>> {
    entries
        .iter()
        .map(|(partition, addr)| (*partition, vec![addr.to_string()]))
        .collect()
}

#[test]
fn test_single_partition() {
    let map = PartitionMap::single_partition();
    assert_eq!(
        map.partition_for_table(&table("messages")),
        PartitionId(DEFAULT_PARTITION)
    );
    assert_eq!(
        map.partition_for_table(&table("_tables")),
        PartitionId(DEFAULT_PARTITION)
    );
    assert!(map.is_local(&table("anything")));
}

#[test]
fn test_multi_partition() {
    let map = PartitionMap::from_config("messages=1,users=1,projects=2,tasks=2", PartitionId(1), 3);

    // Assigned tables.
    assert_eq!(map.partition_for_table(&table("messages")), PartitionId(1));
    assert_eq!(map.partition_for_table(&table("users")), PartitionId(1));
    assert_eq!(map.partition_for_table(&table("projects")), PartitionId(2));
    assert_eq!(map.partition_for_table(&table("tasks")), PartitionId(2));

    // An unassigned user table defaults to partition 0.
    assert_eq!(
        map.partition_for_table(&table("other")),
        PartitionId(DEFAULT_PARTITION)
    );

    // System tables are always on partition 0.
    assert_eq!(
        map.partition_for_table(&table("_tables")),
        PartitionId(DEFAULT_PARTITION)
    );
    assert_eq!(
        map.partition_for_table(&table("_modules")),
        PartitionId(DEFAULT_PARTITION)
    );

    // Local ownership.
    assert!(map.is_local(&table("messages")));
    assert!(map.is_local(&table("users")));
    assert!(!map.is_local(&table("projects")));
    assert!(!map.is_local(&table("tasks")));
    // System tables are on partition 0, not partition 1.
    assert!(!map.is_local(&table("_tables")));

    // Tables for partition.
    let p1_tables = map.tables_for_partition(PartitionId(1));
    assert_eq!(p1_tables.len(), 2);
    let p2_tables = map.tables_for_partition(PartitionId(2));
    assert_eq!(p2_tables.len(), 2);
}

#[test]
fn test_empty_config() {
    let map = PartitionMap::from_config("", PartitionId(0), 1);
    assert_eq!(
        map.partition_for_table(&table("messages")),
        PartitionId(DEFAULT_PARTITION)
    );
}

#[test]
fn test_all_partitions() {
    let map = PartitionMap::from_config("a=1,b=2", PartitionId(0), 3);
    let all = map.all_partitions();
    assert_eq!(all, vec![PartitionId(0), PartitionId(1), PartitionId(2)]);
}

#[test]
fn test_placement_version_defaults_to_static() {
    let map = PartitionMap::from_config("a=1", PartitionId(0), 2);
    assert_eq!(map.placement_version(), PlacementVersion(STATIC_VERSION));
}

#[test]
fn test_placement_version_from_config() {
    let map = PartitionMap::from_config_with_version(
        "a=1",
        PartitionId(0),
        2,
        PlacementVersion::new(42),
    );
    assert_eq!(map.placement_version(), PlacementVersion::new(42));
}

#[test]
fn test_static_placement_metadata_builds_runtime_partition_map() {
    let metadata = config("messages=0,projects=1", 2, 7);

    assert_eq!(metadata.source(), PlacementMetadataSource::StaticConfig);
    assert_eq!(metadata.version(), PlacementVersion::new(7));
    assert_eq!(metadata.num_partitions(), 2);
    assert_eq!(
        metadata.table_assignments().get("projects"),
        Some(&PartitionId(1)),
    );

    let map = metadata.into_partition_map(PartitionId(1));
    assert_eq!(map.partition_for_table(&table("messages")), PartitionId(0));
    assert_eq!(map.partition_for_table(&table("projects")), PartitionId(1));
    assert!(map.is_local(&table("projects")));
    assert_eq!(map.placement_version(), PlacementVersion::new(7));
}

#[test]
fn test_static_placement_metadata_keeps_table_targets_explicit() {
    let metadata = config("messages=0,projects=1", 2, 3);
    let rules: Vec<(String, PartitionId)> = metadata
        .rules()
        .into_iter()
        .map(|rule| match rule.target {
            PlacementTarget::Table(name) => (name.as_str().to_string(), rule.owner),
        })
        .collect();

    assert!(rules.contains(&("messages".to_string(), PartitionId(0))));
    assert!(rules.contains(&("projects".to_string(), PartitionId(1))));
}

#[test]
fn test_placement_state_refreshes_to_newer_metadata() {
    let mut state =
        PlacementState::new(PartitionId(1), config("messages=0,projects=1", 2, 1)).unwrap();

    state.refresh(config("messages=1,projects=0", 2, 2)).unwrap();

    let map = state.partition_map();
    assert_eq!(state.placement_version(), PlacementVersion::new(2));
    assert_eq!(map.partition_for_table(&table("messages")), PartitionId(1));
    assert_eq!(map.partition_for_table(&table("projects")), PartitionId(0));
}

#[test]
fn test_placement_state_rejects_version_downgrade() {
    let mut state = PlacementState::new(PartitionId(0), config("messages=0", 2, 3)).unwrap();

    let err = state.refresh(config("messages=1", 2, 2)).unwrap_err();

    assert!(err
        .message()
        .contains("Refusing to refresh placement metadata"));
    assert_eq!(state.placement_version(), PlacementVersion::new(3));
}

#[test]
fn test_placement_metadata_serialization_loads_as_replicated() {
    let metadata = config("messages=0,projects=1", 2, 9);

    let record = SerializedPlacementMetadata::encode(&metadata);
    let decoded = record.decode().unwrap();

    assert_eq!(decoded.source(), PlacementMetadataSource::Replicated);
    assert_eq!(decoded.version(), PlacementVersion::new(9));
    assert_eq!(
        decoded.table_assignments().get("projects"),
        Some(&PartitionId(1)),
    );
}

#[test]
fn test_with_members_drops_blank_addresses() {
    let metadata = config("messages=1", 2, 1).with_members(BTreeMap::from([
        (0, vec!["  node-a:50051 ".to_string()]),
        (1, vec!["".to_string(), "   ".to_string()]),
    ]));

    // Partition 0's address is trimmed; partition 1 had only blanks and is
    // dropped.
    assert_eq!(
        metadata.members().get(&0),
        Some(&vec!["node-a:50051".to_string()])
    );
    assert_eq!(metadata.members().get(&1), None);
}

#[test]
fn test_placement_metadata_serialization_round_trips_members() {
    let metadata = config("messages=0,projects=1", 2, 4)
        .with_members(members(&[(0, "node-a:50051"), (1, "node-b:50051")]));

    let record = SerializedPlacementMetadata::encode(&metadata);
    let decoded = record.decode().unwrap();

    assert_eq!(decoded.members(), metadata.members());
}

#[test]
fn test_placement_metadata_decodes_legacy_record_without_members() {
    // A record written before membership existed has no `members` field.
    let legacy = br#"{"version":2,"numPartitions":2,"tableAssignments":{"messages":1}}"#;
    let value: serde_json::Value = serde_json::from_slice(legacy).unwrap();
    let mut table_assignments = TextMap::new();
    for (name, owner) in value["tableAssignments"].as_object().unwrap() {
        table_assignments.insert(name.clone(), owner.as_u64().unwrap() as u32);
    }
    assert!(value.get("members").is_none());
    let decoded = SerializedPlacementMetadata {
        version: value["version"].as_u64().unwrap(),
        num_partitions: value["numPartitions"].as_u64().unwrap() as u32,
        table_assignments,
        members: TextMap::new(),
    }
    .decode()
    .unwrap();

    assert_eq!(decoded.version(), PlacementVersion::new(2));
    assert!(decoded.members().is_empty());
    assert_eq!(
        decoded.table_assignments().get("messages"),
        Some(&PartitionId(1))
    );
}

#[test]
fn test_placement_state_node_addresses_snapshot() {
    let with_members = config("messages=1", 2, 1)
        .with_members(members(&[(0, "node-a:50051"), (1, "node-b:50051")]));
    let state = PlacementState::new(PartitionId(0), with_members).unwrap();

    let addresses = state
        .node_addresses()
        .expect("membership should yield node addresses");
    assert_eq!(addresses.address_for(PartitionId(1)), Some("node-b:50051"));

    // With no membership there is no snapshot.
    let no_members = PlacementState::new(PartitionId(0), config("messages=1", 2, 1)).unwrap();
    assert!(no_members.node_addresses().is_none());
}

#[test]
fn test_refresh_placement_once_installs_newer_version() {
    let mut metrics = MetricsRecorder::new();
    let mut store = InMemoryPlacementMetadataStore::new();
    store.ensure_initialized(config("messages=0", 2, 1));
    let mut state = PlacementState::new(PartitionId(0), config("messages=0", 2, 1)).unwrap();

    // Equal version is a no-op.
    assert_eq!(refresh_placement_once(&mut metrics, store.load(), &mut state), Ok(None));

    // A newer version moves `messages` to partition 1.
    store.publish(config("messages=1", 2, 2)).unwrap();

    assert_eq!(
        refresh_placement_once(&mut metrics, store.load(), &mut state),
        Ok(Some(PlacementVersion::new(2)))
    );
    assert_eq!(state.placement_version(), PlacementVersion::new(2));
    assert_eq!(
        state.partition_map().partition_for_table(&table("messages")),
        PartitionId(1)
    );

    let samples = metrics.drain();
    assert_eq!(samples.len(), 1);
    assert_eq!(samples[0].metric, "DATABASE_PLACEMENT_METADATA_VERSION_INFO");
    assert_eq!(samples[0].amount, Amount::Count(2));

    // A second refresh with nothing new is a no-op.
    assert_eq!(refresh_placement_once(&mut metrics, store.load(), &mut state), Ok(None));
}

#[test]
fn test_refresh_placement_once_no_record_is_noop() {
    let mut metrics = MetricsRecorder::new();
    let store = InMemoryPlacementMetadataStore::new();
    let mut state = PlacementState::new(PartitionId(0), config("messages=0", 2, 1)).unwrap();
    assert_eq!(refresh_placement_once(&mut metrics, store.load(), &mut state), Ok(None));
}

#[test]
fn test_publish_rejects_non_increasing_version() {
    let mut store = InMemoryPlacementMetadataStore::new();
    store.ensure_initialized(config("messages=0", 2, 5));

    let err = store.publish(config("messages=1", 2, 5)).unwrap_err();
    assert!(err.message().contains("Refusing to publish"));
}

#[test]
fn test_routed_partition_for_table_keeps_non_deploy_system_tables_local() {
    let map = PartitionMap::from_config("messages=1", PartitionId(1), 2);
    assert_eq!(
        routed_partition_for_table(&table("_modules"), &map, &WriteSource::new("cron_tick")),
        None
    );
}

#[test]
fn test_routed_partition_for_table_routes_deploy_system_tables_to_owner() {
    let map = PartitionMap::from_config("messages=1", PartitionId(1), 2);
    assert_eq!(
        routed_partition_for_table(&table("_modules"), &map, &WriteSource::new("finish_push")),
        Some(PartitionId(DEFAULT_PARTITION))
    );
}

#[test]
fn malformed_assignments_are_passed_over() {
    let map = PartitionMap::from_config(
        " messages = 1 ,nonsense,=2,users=,9lives=1,tasks=x,orders=+2,messages=2",
        PartitionId(0),
        3,
    );
    assert_eq!(map.assignments().len(), 2);
    // A later assignment stands in place of an earlier one.
    assert_eq!(map.partition_for_table(&table("messages")), PartitionId(2));
    assert_eq!(map.partition_for_table(&table("orders")), PartitionId(2));
    assert_eq!(map.num_partitions(), 3);
    assert_eq!(map.local_partition(), PartitionId(0));
}

#[test]
fn system_tables_cannot_be_assigned_elsewhere() {
    let map = PartitionMap::from_config("_modules=2", PartitionId(2), 3);
    assert_eq!(map.partition_for_table(&table("_modules")), PartitionId(0));
    assert!(!map.is_local(&table("_modules")));
}

#[test]
fn placement_errors_say_what_is_wrong() {
    let outside = PlacementState::new(PartitionId(2), config("", 2, 1)).unwrap_err();
    assert_eq!(
        outside.message(),
        "Local partition partition-2 is outside placement metadata with 2 partitions"
    );
    let mut state = PlacementState::new(PartitionId(1), config("", 2, 3)).unwrap();
    assert_eq!(
        state.refresh(config("", 1, 4)),
        Err(PlacementError::LocalOutside {
            local: PartitionId(1),
            num_partitions: 1,
        })
    );
    assert_eq!(
        state.refresh(config("", 2, 2)).unwrap_err().message(),
        "Refusing to refresh placement metadata from placement-version-3 down to \
         placement-version-2"
    );
    let mut store = InMemoryPlacementMetadataStore::new();
    store.publish(config("", 2, 5)).unwrap();
    assert_eq!(
        store.publish(config("", 2, 5)).unwrap_err().message(),
        "Refusing to publish placement version placement-version-5 over current placement-version-5"
    );
    assert_eq!(
        PlacementError::NotNewer {
            current: PlacementVersion(5),
            requested: PlacementVersion(4),
        }
        .message(),
        "Refusing to publish placement version placement-version-4 over current \
         placement-version-5; the new version must be strictly greater"
    );
    assert_eq!(
        PlacementError::SinglePartition.message(),
        "Cannot refresh placement metadata in single-partition mode"
    );
}

#[test]
fn records_that_name_no_table_or_no_partition_are_refused() {
    let mut tables = TextMap::new();
    tables.insert("9lives".to_string(), 1u32);
    let bad_table = SerializedPlacementMetadata {
        version: 1,
        num_partitions: 2,
        table_assignments: tables,
        members: TextMap::new(),
    };
    assert_eq!(
        bad_table.decode().unwrap_err(),
        RecordError::InvalidTableName("9lives".to_string())
    );
    let mut members = TextMap::new();
    members.insert("first".to_string(), vec!["a:1".to_string()]);
    let bad_member = SerializedPlacementMetadata {
        version: 1,
        num_partitions: 2,
        table_assignments: TextMap::new(),
        members,
    };
    let err = bad_member.decode().unwrap_err();
    assert_eq!(err, RecordError::InvalidPartition("first".to_string()));
    assert_eq!(
        err.message(),
        "Placement metadata: invalid partition id \"first\" in members"
    );
    assert_eq!(
        RecordError::InvalidPartition("a\"b\n".to_string()).message(),
        "Placement metadata: invalid partition id \"a\\\"b\\n\" in members"
    );
}

#[test]
fn publishing_compares_and_sets() {
    let newer = config("messages=1", 2, 2);
    assert_eq!(plan_publish(None, &newer), Ok(PublishStep::Create));
    assert_eq!(
        plan_publish(Some(&(config("", 2, 1), 17)), &newer),
        Ok(PublishStep::Update { revision: 17 })
    );
    assert_eq!(
        plan_publish(Some(&(config("", 2, 2), 17)), &newer),
        Err(PlacementError::NotNewer {
            current: PlacementVersion(2),
            requested: PlacementVersion(2),
        })
    );
}

#[test]
fn initializing_keeps_what_is_published() {
    let mut store = InMemoryPlacementMetadataStore::new();
    assert!(store.load().is_none());
    let first = store.ensure_initialized(config("messages=1", 2, 4));
    assert_eq!(first.version(), PlacementVersion(4));
    let second = store.ensure_initialized(config("messages=0", 2, 9));
    assert_eq!(second.version(), PlacementVersion(4));
}

#[test]
fn a_target_installs_only_what_it_accepts() {
    let mut metrics = MetricsRecorder::new();
    let mut state = PlacementState::new(PartitionId(1), config("", 2, 1)).unwrap();
    let refused = refresh_placement_once(&mut metrics, Some(config("", 1, 7)), &mut state);
    assert_eq!(
        refused,
        Err(PlacementError::LocalOutside {
            local: PartitionId(1),
            num_partitions: 1,
        })
    );
    assert_eq!(state.current_placement_version(), PlacementVersion(1));
}

#[test]
fn versions_and_partitions_print() {
    assert_eq!(PartitionId(4_294_967_295).to_text(), "partition-4294967295");
    assert_eq!(PlacementVersion::new(0).to_text(), "placement-version-0");
    assert_eq!(u64::from(PlacementVersion::from(12u64)), 12);
    assert_eq!(PlacementVersion::default(), PlacementVersion(STATIC_VERSION));
}

#[test]
fn deploy_operations_use_the_metadata_owner() {
    assert!(uses_metadata_owner(&WriteSource::new("start_push")));
    assert!(uses_metadata_owner(&WriteSource::new("finish_push")));
    assert!(!uses_metadata_owner(&WriteSource::new("start_pushing")));
    assert!(!uses_metadata_owner(&WriteSource::unknown()));
}

#[test]
fn node_addresses_are_kept_by_partition() {
    let addresses = NodeAddresses::from_map(BTreeMap::from([
        (3, vec!["c:1".to_string()]),
        (1, vec!["a:1".to_string(), "a:2".to_string()]),
        (2, vec![]),
    ]));
    assert_eq!(
        addresses.partitions(),
        vec![PartitionId(1), PartitionId(2), PartitionId(3)]
    );
    assert_eq!(addresses.address_for(PartitionId(1)), Some("a:1"));
    assert_eq!(addresses.address_for(PartitionId(2)), None);
    assert_eq!(addresses.address_for(PartitionId(9)), None);
    assert_eq!(addresses.addresses_for(PartitionId(1)).unwrap().len(), 2);
}

#[test]
fn assignments_and_runtime_maps_convert_back() {
    let metadata = PlacementMetadata::from_table_assignments(
        PlacementMetadataSource::Replicated,
        PlacementVersion(3),
        4,
        vec![
            (table("users"), PartitionId(1)),
            (table("tasks"), PartitionId(2)),
            (table("users"), PartitionId(3)),
        ],
    );
    let map = metadata.into_partition_map(PartitionId(3));
    assert_eq!(
        map.tables_for_partition(PartitionId(3))
            .iter()
            .map(|t| t.as_str().to_string())
            .collect::<Vec<_>>(),
        vec!["users".to_string()]
    );
    let back = PlacementMetadata::from_partition_map(&map, PlacementMetadataSource::StaticConfig);
    assert_eq!(back.version(), PlacementVersion(3));
    assert_eq!(back.num_partitions(), 4);
    assert_eq!(back.table_assignments().get("tasks"), Some(&PartitionId(2)));
    let state = PlacementState::from_partition_map(map);
    assert_eq!(state.local_partition(), PartitionId(3));
    assert_eq!(state.num_partitions(), 4);
}

#[test]
fn table_names_follow_the_rule() {
    let longest = "a".repeat(64);
    for good in ["messages", "_tables", "a1", "_1", "Z", longest.as_str()] {
        assert_eq!(TableName::parse(good).unwrap().as_str(), good);
    }
    let too_long = "a".repeat(65);
    for bad in ["", "_", "___", "1a", "a b", "a-b", "\u{e9}", too_long.as_str()] {
        assert!(TableName::parse(bad).is_none(), "{bad:?}");
    }
    assert!(table("_index").is_system());
    assert!(!table("index").is_system());
}

#[test]
fn versions_are_ordered_by_number() {
    let (a, b) = (PlacementVersion::new(3), PlacementVersion::new(20));
    assert!(a < b && a <= b && b > a && b >= a);
    assert!(a <= PlacementVersion::from(3) && a >= PlacementVersion::from(3));
    assert_eq!(a.max(b), b);
    assert_eq!(u64::from(b), 20);
    assert_eq!(PlacementVersion::new(0), PlacementVersion::default());
}
