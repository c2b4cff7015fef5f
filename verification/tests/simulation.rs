use convex_cluster::model::invariants::check_all;
use convex_cluster::model::state::Decision;
use convex_cluster::model::Cluster;
use convex_cluster::network::{Msg, Network, NetworkConfig};
use convex_cluster::rng::{Rng, CERTAIN};
use convex_cluster::sim::{run, SimConfig, SimReport};

fn reliable(min_latency: u64, max_latency: u64) -> NetworkConfig {
    NetworkConfig {
        drop_prob: 0,
        duplicate_prob: 0,
        min_latency,
        max_latency,
    }
}

fn rollback(txn: u64) -> Msg {
    Msg::RollbackPrepared { txn }
}

fn txn_of(msg: &Msg) -> u64 {
    match msg {
        Msg::RollbackPrepared { txn } => *txn,
        msg => panic!("unexpected {msg:?}"),
    }
}

#[test]
fn generators_with_one_seed_agree() {
    let mut a = Rng::from_seed(7);
    let mut b = Rng::from_seed(7);
    let mut c = Rng::from_seed(8);
    let draw = |r: &mut Rng| -> Vec<u64> { (0..20).map(|_| r.int_in(0, 1_000_000)).collect() };
    let from_a = draw(&mut a);
    assert_eq!(from_a, draw(&mut b));
    assert_ne!(from_a, draw(&mut c));
    // A generator moves on.
    assert_ne!(from_a, draw(&mut a));
}

#[test]
fn draws_stay_in_range() {
    let mut rng = Rng::from_seed(1);
    let items = [10, 20, 30];
    let mut seen = [false; 3];
    for _ in 0..200 {
        assert!(rng.chance(CERTAIN));
        assert!(!rng.chance(0));
        let n = rng.int_in(3, 5);
        assert!((3..=5).contains(&n));
        assert_eq!(rng.int_in(9, 4), 9);
        let i = rng.index(3);
        assert!(i < 3);
        seen[i] = true;
        assert!(items.contains(rng.pick(&items)));
    }
    assert_eq!(seen, [true; 3]);
    // About half of the draws succeed at one half.
    let hits = (0..1000).filter(|_| rng.chance(CERTAIN / 2)).count();
    assert!((400..600).contains(&hits), "{hits}");
}

#[test]
fn messages_arrive_in_order_of_time() {
    let mut rng = Rng::from_seed(3);
    let mut network = Network::new(reliable(2, 2));
    assert_eq!(network.send(&mut rng, 5, 0, 1, rollback(1)), 1);
    assert_eq!(network.send(&mut rng, 4, 0, 1, rollback(2)), 1);
    assert_eq!(network.send(&mut rng, 4, 0, 2, rollback(3)), 1);
    assert_eq!(network.in_flight_len(), 3);
    assert!(network.deliver_due(5).is_empty());
    let due: Vec<u64> = network
        .deliver_due(7)
        .iter()
        .map(|e| txn_of(&e.msg))
        .collect();
    assert_eq!(due, vec![2, 3, 1]);
    assert_eq!(network.in_flight_len(), 0);
}

#[test]
fn isolated_nodes_get_nothing_until_they_heal() {
    let mut rng = Rng::from_seed(3);
    let mut network = Network::new(reliable(1, 1));
    network.send(&mut rng, 0, 0, 1, rollback(1));
    network.isolate(1);
    assert!(network.is_isolated(1));
    // What is under way is held, and what is sent is lost.
    assert_eq!(network.send(&mut rng, 0, 0, 1, rollback(2)), 0);
    assert!(network.deliver_due(9).is_empty());
    // A node reaches itself.
    assert_eq!(network.send(&mut rng, 0, 1, 1, rollback(3)), 1);
    network.heal(1);
    let due: Vec<u64> = network
        .deliver_due(9)
        .iter()
        .map(|e| txn_of(&e.msg))
        .collect();
    assert_eq!(due, vec![1, 3]);
    network.isolate(2);
    network.isolate(3);
    // Isolated nodes reach each other.
    assert_eq!(network.send(&mut rng, 0, 2, 3, rollback(4)), 1);
    network.heal_all();
    assert!(!network.is_isolated(2));
}

#[test]
fn faults_follow_the_configured_rates() {
    let mut rng = Rng::from_seed(3);
    let mut lossy = Network::new(NetworkConfig {
        drop_prob: CERTAIN,
        ..reliable(1, 1)
    });
    assert_eq!(lossy.send(&mut rng, 0, 0, 1, rollback(1)), 0);
    let mut doubling = Network::new(NetworkConfig {
        duplicate_prob: CERTAIN,
        ..reliable(1, 1)
    });
    assert_eq!(doubling.send(&mut rng, 0, 0, 1, rollback(1)), 2);
    assert_eq!(doubling.deliver_due(1).len(), 2);
}

#[test]
fn fresh_clusters_hold_nothing() {
    let cluster = Cluster::new(3);
    assert_eq!(cluster.num_partitions(), 3);
    assert_eq!(cluster.committed_floor(), 0);
    assert_eq!(cluster.owner_of(7), 1);
    assert_eq!(cluster.owner_value(7), None);
    assert_eq!(cluster.replica_value(0, 7), None);
    assert!(cluster.is_up(2));
    assert_eq!(cluster.prepared_count(), 0);
    assert_eq!(cluster.decision(1), None);
}

#[test]
fn clusters_without_partitions_hold_nothing() {
    let cluster = Cluster::new(0);
    assert_eq!(cluster.num_partitions(), 0);
    assert_eq!(cluster.prepared_count(), 0);
    assert!(check_all(&cluster).is_empty());
}

#[test]
fn laws_hold_over_a_run() {
    let mut rng = Rng::from_seed(11);
    let mut network = Network::new(NetworkConfig {
        drop_prob: CERTAIN / 10,
        duplicate_prob: CERTAIN / 10,
        ..reliable(1, 4)
    });
    let mut cluster = Cluster::new(3);
    let mut floor = 0;
    let mut decided: Vec<(u64, Decision)> = Vec::new();
    for now in 1..400 {
        cluster.set_now(now);
        for envelope in network.deliver_due(now) {
            cluster.deliver(&mut rng, &mut network, envelope.to, envelope.msg);
        }
        match now % 40 {
            10 => cluster.crash(1),
            15 => network.isolate(2),
            20 => cluster.restart(1),
            25 => cluster.bump_placement_on(&vec![0, 2]),
            30 => cluster.bump_placement_on(&vec![0, 1, 2]),
            35 => network.heal(2),
            _ => {
                if cluster.is_up(0) {
                    cluster.try_transaction(&mut rng, &mut network, 0);
                }
            }
        }
        cluster.tick_background(&mut rng, &mut network);
        cluster.replicate_tick(&network);

        assert_eq!(cluster.num_partitions(), 3);
        // The floor never falls back.
        assert!(cluster.committed_floor() >= floor);
        floor = cluster.committed_floor();
        // What is decided stays decided.
        for (txn, decision) in &decided {
            assert_eq!(cluster.decision(*txn), Some(decision));
        }
        decided = (0..500)
            .filter_map(|txn| cluster.decision(txn).map(|d| (txn, *d)))
            .collect();
        // Whoever is up and connected has caught up.
        for node in 0..3 {
            if cluster.is_up(node) && !network.is_isolated(node) {
                for key in 0..12 {
                    let expected = if cluster.owner_of(key) == node {
                        None
                    } else {
                        cluster.owner_value(key)
                    };
                    assert_eq!(cluster.replica_value(node, key), expected);
                }
            }
        }
    }
    assert!(!cluster.history.is_empty());
    assert!(decided.iter().any(|(_, d)| *d == Decision::RolledBack));
    assert!(decided.iter().any(|(_, d)| *d != Decision::RolledBack));
    cluster.quiesce(&mut rng, &mut network);
    assert_eq!(cluster.prepared_count(), 0);
    assert!(check_all(&cluster).is_empty());
    // Each committed decision has one transaction in the history, and what was
    // rolled back has none.
    for (txn, decision) in &decided {
        let times = cluster
            .history
            .iter()
            .filter(|t| *decision == Decision::Committed(t.commit_ts))
            .count();
        assert_eq!(times, usize::from(*decision != Decision::RolledBack), "{txn}");
    }
}

#[test]
fn stale_nodes_refuse_prepares() {
    let mut rng = Rng::from_seed(1);
    let mut network = Network::new(reliable(1, 1));
    let mut cluster = Cluster::new(2);
    cluster.bump_placement_on(&vec![0]);
    let prepare = |txn: u64, key: u32| Msg::Prepare {
        txn,
        coordinator: 0,
        prepare_ts: 5,
        writes: vec![(key, 9)],
        placement_version: 1,
    };
    cluster.deliver(&mut rng, &mut network, 1, prepare(7, 1));
    assert_eq!(cluster.prepared_count(), 0);
    let due = network.deliver_due(1);
    assert_eq!(due.len(), 1);
    assert!(matches!(
        due[0].msg,
        Msg::PrepareReply {
            txn: 7,
            participant: 1,
            ok: false
        }
    ));
    // A node that has heard of the new version takes it.
    cluster.bump_placement_on(&vec![]);
    cluster.deliver(&mut rng, &mut network, 0, prepare(8, 0));
    assert_eq!(cluster.prepared_count(), 1);
}

#[test]
fn stress_runs_keep_the_invariants() {
    let mut config = SimConfig::stress();
    config.steps = 400;
    for seed in 0..3 {
        let report = run(seed, &config);
        assert!(report.passed(), "{}", report.failure_report());
        assert_eq!(report.seed, seed);
        assert_eq!(report.steps, 400);
    }
}

#[test]
fn failure_reports_show_the_end_of_the_trace() {
    let report = SimReport {
        seed: 5,
        steps: 10,
        committed: 2,
        dropped: 3,
        duplicated: 4,
        violations: vec!["lost write".to_string()],
        trace: (0..61).map(|i| format!("event {i}")).collect(),
    };
    assert!(!report.passed());
    let text = report.failure_report();
    assert!(text.starts_with(
        "SIMULATION FAILED\n  seed: 5\n  steps: 10\n  committed: 2\n  dropped: 3, duplicated: \
         4\n  violations:\n    - lost write\n  trace (last 60 events):\n    event 1\n"
    ));
    assert!(text.ends_with("    event 60\n  reproduce with: cluster_sim::run(5, cfg)\n"));
}
