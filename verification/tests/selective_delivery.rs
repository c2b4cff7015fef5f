use convex_cluster::metrics::{Amount, MetricsRecorder};
use convex_cluster::names::TableName;
use convex_cluster::selective_delivery::{
    interest_selection_from_cache, interested_nodes_for_tables_from_cache, InterestEvent,
    InterestRegistration, SelectiveDeliveryRegistry, INTEREST_MAX_AGE_MS,
};
use convex_cluster::table_set::TableSet;
use convex_cluster::text_map::TextMap;

fn registration(tables: &[&str], updated_at_ms: u64) -> InterestRegistration {
    InterestRegistration {
        tables: tables.iter().map(ToString::to_string).collect(),
        updated_at_ms,
    }
}

fn only(table: &str) -> TableSet {
    let mut set = TableSet::new();
    set.insert(&TableName::parse(table).unwrap());
    set
}

#[test]
fn interested_nodes_match_tables_and_skip_stale_entries() {
    let now_ms: u64 = 1_000_000;
    let mut cache = TextMap::new();
    cache.insert("node-a".to_string(), registration(&["messages"], now_ms));
    cache.insert(
        "node-b".to_string(),
        registration(&["tasks"], now_ms.saturating_sub(200_000)),
    );
    assert_eq!(
        interested_nodes_for_tables_from_cache(&cache, now_ms, &only("messages")),
        vec!["node-a".to_string()]
    );
    assert!(interested_nodes_for_tables_from_cache(&cache, now_ms, &only("tasks")).is_empty());
}

#[test]
fn node_subject_names_are_stable() {
    assert_eq!(
        SelectiveDeliveryRegistry::node_subject("node-a"),
        "convex.commits.node.node-a"
    );
}

#[test]
fn stale_registration_is_skipped_and_counted() {
    let now_ms: u64 = 1_000_000;
    let stale_at = now_ms - INTEREST_MAX_AGE_MS - 1;
    let mut cache = TextMap::new();
    cache.insert(
        "fresh-node".to_string(),
        registration(&["messages"], now_ms),
    );
    cache.insert(
        "stale-node".to_string(),
        registration(&["messages"], stale_at),
    );

    let selection = interest_selection_from_cache(&cache, now_ms, &only("messages"));

    // The stale node is NOT targeted (it would be missed if targeting were the
    // only path) and is surfaced as a staleness signal.
    assert_eq!(selection.interested, vec!["fresh-node".to_string()]);
    assert_eq!(selection.known_nodes, 2);
    assert_eq!(selection.stale_nodes, 1);
}

#[test]
fn missing_interest_yields_no_targets_and_zero_known() {
    // A freshly started node that has not published interest yet is simply
    // absent. Selecting targets must not invent it; the broadcast path is what
    // actually delivers to it.
    let now_ms: u64 = 1_000_000;
    let cache = TextMap::new();

    let selection = interest_selection_from_cache(&cache, now_ms, &only("messages"));

    assert!(selection.interested.is_empty());
    assert_eq!(selection.known_nodes, 0);
    assert_eq!(selection.stale_nodes, 0);
}

#[test]
fn delayed_registration_appears_once_published() {
    let now_ms: u64 = 1_000_000;
    let mut cache = TextMap::new();

    // Before the node registers: not a target.
    assert!(interested_nodes_for_tables_from_cache(&cache, now_ms, &only("messages")).is_empty());

    // After it publishes interest: it becomes a target.
    cache.insert("late-node".to_string(), registration(&["messages"], now_ms));
    assert_eq!(
        interested_nodes_for_tables_from_cache(&cache, now_ms, &only("messages")),
        vec!["late-node".to_string()]
    );
}

#[test]
fn table_interest_change_updates_targets() {
    let now_ms: u64 = 1_000_000;
    let mut cache = TextMap::new();
    cache.insert("node-a".to_string(), registration(&["messages"], now_ms));

    // Registered for `messages`, so a `tasks` delta does not target it.
    assert!(interested_nodes_for_tables_from_cache(&cache, now_ms, &only("tasks")).is_empty());

    // Interest changes to `tasks`: now a `tasks` delta targets it and a
    // `messages` delta no longer does.
    cache.insert("node-a".to_string(), registration(&["tasks"], now_ms));
    assert_eq!(
        interested_nodes_for_tables_from_cache(&cache, now_ms, &only("tasks")),
        vec!["node-a".to_string()]
    );
    assert!(interested_nodes_for_tables_from_cache(&cache, now_ms, &only("messages")).is_empty());
}

#[test]
fn registrations_stay_fresh_for_the_maximum_age() {
    let r = registration(&["messages"], 10_000);
    assert!(r.is_fresh(10_000 + INTEREST_MAX_AGE_MS));
    assert!(!r.is_fresh(10_000 + INTEREST_MAX_AGE_MS + 1));
    // A registration from the future is fresh.
    assert!(r.is_fresh(0));
    // What is no table name matches nothing.
    assert!(!registration(&["not a table"], 0).matches(&only("messages")));
    assert!(registration(&["not a table", "messages"], 0).matches(&only("messages")));
}

#[test]
fn registry_follows_what_it_observes() {
    let mut registry = SelectiveDeliveryRegistry::new("node-a".to_string());
    assert_eq!(registry.node_name(), "node-a");

    let own = SelectiveDeliveryRegistry::local_interest(&only("messages"), 500);
    assert_eq!(own.tables, vec!["messages".to_string()]);
    assert_eq!(own.updated_at_ms, 500);
    registry.publish_local_interest(&own);

    registry.observe(InterestEvent::Put {
        node: "node-b".to_string(),
        registration: Some(registration(&["messages"], 600)),
    });
    // What could not be read changes nothing.
    registry.observe(InterestEvent::Put {
        node: "node-b".to_string(),
        registration: None,
    });
    assert_eq!(
        registry.interested_nodes_for_tables(700, &only("messages")),
        vec!["node-a".to_string(), "node-b".to_string()]
    );

    registry.observe(InterestEvent::Removed {
        node: "node-b".to_string(),
    });
    let mut metrics = MetricsRecorder::new();
    let selection = registry.interested_nodes_with_health(&mut metrics, 700, &only("messages"));
    assert_eq!(selection.interested, vec!["node-a".to_string()]);
    assert_eq!(selection.known_nodes, 1);
    assert_eq!(selection.stale_nodes, 0);
    let amounts: Vec<Amount> = metrics.drain().iter().map(|s| s.amount).collect();
    assert_eq!(
        amounts,
        vec![Amount::Count(0), Amount::Count(1), Amount::Count(1)]
    );
    // Much later the registration is too old.
    let selection =
        registry.interested_nodes_with_health(&mut metrics, 1_000_000_000, &only("messages"));
    assert_eq!(selection.stale_nodes, 1);
    let samples: Vec<(&str, Amount)> = metrics
        .drain()
        .iter()
        .map(|s| (s.metric, s.amount))
        .collect();
    assert_eq!(
        samples,
        vec![
            (
                "DATABASE_SELECTIVE_DELIVERY_STALE_REGISTRATIONS_INFO",
                Amount::Count(1)
            ),
            (
                "DATABASE_SELECTIVE_DELIVERY_INTEREST_CANDIDATES_TOTAL",
                Amount::Count(1)
            ),
            (
                "DATABASE_SELECTIVE_DELIVERY_INTEREST_HITS_TOTAL",
                Amount::Count(0)
            ),
        ]
    );
}
