use convex_cluster::sim::{run, SimConfig, SimReport};

/// Many seeds, small bounds. Every run must satisfy all invariants.
#[test]
fn fast_suite_invariants_hold() {
    let config = SimConfig::fast();
    for seed in 0..200 {
        let report = run(seed, &config);
        assert!(report.passed(), "{}", report.failure_report());
    }
}

/// The same seed gives the same outcome.
#[test]
fn runs_are_reproducible() {
    let config = SimConfig::fast();
    for seed in [1u64, 42, 12345] {
        let a = run(seed, &config);
        let b = run(seed, &config);
        assert_eq!(
            a.committed, b.committed,
            "committed differs for seed {seed}"
        );
        assert_eq!(
            a.violations, b.violations,
            "violations differ for seed {seed}"
        );
        assert_eq!(a.trace, b.trace, "trace differs for seed {seed}");
    }
}

/// The workload commits and the network loses messages.
#[test]
fn workload_is_non_trivial() {
    let config = SimConfig::fast();
    let mut total_committed = 0usize;
    let mut total_dropped = 0u64;
    for seed in 0..20 {
        let report = run(seed, &config);
        total_committed += report.committed;
        total_dropped += report.dropped;
    }
    assert!(total_committed > 100, "expected many commits across seeds");
    assert!(total_dropped > 0, "expected the network to drop messages");
}

/// Failure reporting includes the seed and a trace tail.
#[test]
fn failure_report_mentions_seed() {
    let report = SimReport {
        seed: 777,
        steps: 1,
        committed: 0,
        dropped: 0,
        duplicated: 0,
        violations: vec!["example".to_string()],
        trace: vec!["t=0001 something".to_string()],
    };
    let text = report.failure_report();
    assert!(text.contains("seed: 777"));
    assert!(text.contains("example"));
}
