use ssh_tui_rs::app::App;
use ssh_tui_rs::reachability::{
    CheckResult, HostReachability, attempt_budget_ns, check_outcome, remaining_time, worker_count,
};
use ssh_tui_rs::ssh_config::{HostEntry, ResolvedHost, SshConfig};

#[test]
fn checks_are_handed_out_and_their_results_recorded() {
    let config = SshConfig {
        source: "config".into(),
        groups: Vec::new(),
        hosts: vec![
            HostEntry {
                alias: "named".into(),
                description: None,
                group_path: Vec::new(),
                source: "config".into(),
                line: 1,
                options: Vec::new(),
                resolved: ResolvedHost { host_name: Some("10.0.0.1".into()), port: Some(2200), ..ResolvedHost::default() },
            },
            HostEntry {
                alias: "bare".into(),
                description: None,
                group_path: Vec::new(),
                source: "config".into(),
                line: 2,
                options: Vec::new(),
                resolved: ResolvedHost::default(),
            },
        ],
    };
    let mut app = App::new(config);
    assert!(!app.reachability_idle());
    let targets = app.take_pending_checks();
    assert_eq!(targets.len(), 2);
    let named = targets.iter().find(|t| t.host_index == 0).unwrap();
    assert_eq!((named.host.as_str(), named.port), ("10.0.0.1", 2200));
    let bare = targets.iter().find(|t| t.host_index == 1).unwrap();
    assert_eq!((bare.host.as_str(), bare.port), ("bare", 22));
    assert!(!app.reachability_idle());
    app.poll_reachability(vec![check_outcome(0, true), CheckResult { host_index: 1, reachability: HostReachability::Unreachable }]);
    assert_eq!(app.host_reachability(0), HostReachability::Reachable);
    assert_eq!(app.host_reachability(1), HostReachability::Unreachable);
    assert!(app.reachability_idle());
}

#[test]
fn workers_and_time_budget() {
    assert_eq!(worker_count(3), 3);
    assert_eq!(worker_count(20), 8);
    assert_eq!(remaining_time(5_000, 1_000), Some(4_000));
    assert_eq!(remaining_time(5_000, 6_000), None);
}

#[test]
fn attempts_get_what_is_left_of_the_timeout() {
    assert_eq!(attempt_budget_ns(2_000_000_000, 500_000_000), Some(1_500_000_000));
    assert_eq!(attempt_budget_ns(2_000, 2_000), Some(0));
    assert_eq!(attempt_budget_ns(2_000, 2_001), None);
    assert_eq!(attempt_budget_ns(u128::MAX, 0), Some(u64::MAX));
}
