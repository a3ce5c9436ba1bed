use tau_cpu::clock::nanos_as_u64;
use tau_cpu::platform::{
    lower_priority, memory_share_x100, restore_priority, timestamp, timestamp_text,
    PriorityOutcome,
};
use tau_cpu::ranking::top_processes;
use tau_cpu::report::describe_actions;
use tau_cpu::text::{decimal_string, decimal_string_u64, process_nice};
use tau_cpu::{ActionResult, Policy, ProcessSnapshot};

fn err_of(policy: Policy) -> String {
    policy.validate().unwrap_err()
}

#[test]
fn default_policy_matches_documented_values() {
    let policy = Policy::default();
    assert_eq!(policy.interval_ms, 2000);
    assert_eq!(policy.system_threshold_x100, 8500);
    assert_eq!(policy.process_threshold_x100, 3500);
    assert_eq!(policy.background_nice, 10);
    assert_eq!(policy.cooldown_ms, 30000);
    assert_eq!(policy.max_actions_per_cycle, 4);
    assert_eq!(policy.validate(), Ok(()));
}

#[test]
fn every_policy_rule_has_its_message() {
    let d = Policy::default();
    assert_eq!(err_of(Policy { interval_ms: -5, ..d }), "interval must be positive");
    assert_eq!(
        err_of(Policy { system_threshold_x100: 10001, ..d }),
        "system threshold must be between 0 and 100"
    );
    assert_eq!(
        err_of(Policy { system_threshold_x100: -1, ..d }),
        "system threshold must be between 0 and 100"
    );
    assert_eq!(
        err_of(Policy { process_threshold_x100: 10050, ..d }),
        "process threshold must be between 0 and 100"
    );
    assert_eq!(
        err_of(Policy { background_nice: 0, ..d }),
        "background nice must be between 1 and 19"
    );
    assert_eq!(
        err_of(Policy { background_nice: 20, ..d }),
        "background nice must be between 1 and 19"
    );
    assert_eq!(err_of(Policy { cooldown_ms: -1, ..d }), "cooldown cannot be negative");
    assert_eq!(
        err_of(Policy { max_actions_per_cycle: 0, ..d }),
        "max actions must be positive"
    );
    assert_eq!(
        err_of(Policy { interval_ms: 0, background_nice: 0, ..d }),
        "interval must be positive"
    );
}

#[test]
fn policy_bounds_are_inclusive() {
    let d = Policy::default();
    let edge = Policy {
        system_threshold_x100: 10000,
        process_threshold_x100: 0,
        background_nice: 19,
        cooldown_ms: 0,
        max_actions_per_cycle: 1,
        interval_ms: 1,
    };
    assert_eq!(edge.validate(), Ok(()));
    assert_eq!(Policy { background_nice: 1, ..d }.validate(), Ok(()));
}

#[test]
fn decimal_text_matches_display() {
    for n in [0i64, 7, 10, 42, -1, -10, 1234567890, i64::MAX, i64::MIN] {
        assert_eq!(decimal_string(n), n.to_string());
    }
    for n in [0u64, 9, 100, u64::MAX] {
        assert_eq!(decimal_string_u64(n), n.to_string());
    }
}

#[test]
fn nice_is_read_from_a_stat_line() {
    let stat = "1234 (my (odd) proc) S 1 1234 1234 0 -1 4194560 100 0 0 0 5 3 0 0 20 -5 1 0 100 1000000 200";
    assert_eq!(process_nice(stat), Some(-5));
    let spaced = "1 (init) S  1\t1 1 0 -1 4194560 100 0 0 0 5 3 0 0 20 +7 1 0\n";
    assert_eq!(process_nice(spaced), Some(7));
}

#[test]
fn malformed_stat_lines_give_no_nice() {
    assert_eq!(process_nice(""), None);
    assert_eq!(process_nice("1234 (name)S 1 2 3"), None);
    assert_eq!(process_nice("1234 (name) S 1 2 3"), None);
    let bad = "1 (x) S 1 1 1 0 -1 4 1 0 0 0 5 3 0 0 20 1x 1";
    assert_eq!(process_nice(bad), None);
    let sign_only = "1 (x) S 1 1 1 0 -1 4 1 0 0 0 5 3 0 0 20 - 1";
    assert_eq!(process_nice(sign_only), None);
    let huge = "1 (x) S 1 1 1 0 -1 4 1 0 0 0 5 3 0 0 20 2147483648 1";
    assert_eq!(process_nice(huge), None);
    let smallest = "1 (x) S 1 1 1 0 -1 4 1 0 0 0 5 3 0 0 20 -2147483648 1";
    assert_eq!(process_nice(smallest), Some(i32::MIN));
}

#[test]
fn lowering_reports_each_outcome() {
    assert_eq!(
        lower_priority(10, PriorityOutcome::Applied),
        Ok((true, "priority set to 10".to_string(), 10))
    );
    assert_eq!(
        lower_priority(10, PriorityOutcome::Failed("Permission denied".to_string())),
        Err("Permission denied".to_string())
    );
    assert_eq!(
        lower_priority(25, PriorityOutcome::Applied),
        Err("target nice must be between 1 and 19".to_string())
    );
    assert_eq!(
        lower_priority(0, PriorityOutcome::Failed("x".to_string())),
        Err("target nice must be between 1 and 19".to_string())
    );
    assert_eq!(
        lower_priority(5, PriorityOutcome::Unsupported),
        Err("priority control is unavailable on this platform".to_string())
    );
}

#[test]
fn restoring_reports_each_outcome() {
    assert_eq!(
        restore_priority(-3, PriorityOutcome::Applied),
        Ok("priority restored to -3".to_string())
    );
    assert_eq!(
        restore_priority(0, PriorityOutcome::Failed("No such process".to_string())),
        Err("No such process".to_string())
    );
    assert_eq!(
        restore_priority(0, PriorityOutcome::Unsupported),
        Err("priority control is unavailable on this platform".to_string())
    );
}

#[test]
fn timestamps_are_decimal_seconds() {
    assert_eq!(timestamp_text(Some(1_700_000_000)), "1700000000");
    assert_eq!(timestamp_text(None), "0");
    let now = timestamp();
    assert!(!now.is_empty() && now.chars().all(|c| c.is_ascii_digit()));
    assert_ne!(now, "0");
}

#[test]
fn memory_share_is_in_hundredths() {
    assert_eq!(memory_share_x100(1, 4), 2500);
    assert_eq!(memory_share_x100(1, 3), 3333);
    assert_eq!(memory_share_x100(5, 0), 0);
    assert_eq!(memory_share_x100(u64::MAX, 1), i64::MAX);
}

#[test]
fn actions_are_summed_up_on_one_line() {
    assert_eq!(describe_actions(&vec![]), "no changes");
    let actions = vec![
        ActionResult { pid: 42, name: "a".to_string(), changed: true, detail: "priority set to 10".to_string() },
        ActionResult { pid: 7, name: "b".to_string(), changed: false, detail: "denied".to_string() },
    ];
    assert_eq!(
        describe_actions(&actions),
        "a[42]: priority set to 10, b[7]: denied"
    );
}

#[test]
fn top_processes_keep_ties_in_sample_order() {
    let p = |pid: u32, cpu: i64| ProcessSnapshot {
        pid,
        name: pid.to_string(),
        cpu_percent_x100: cpu,
        memory_percent_x100: 0,
        status: "Run".to_string(),
        nice: None,
    };
    let all = vec![p(1, 500), p(2, 900), p(3, 500), p(4, 900), p(5, 100)];
    let top: Vec<u32> = top_processes(&all, 4).iter().map(|x| x.pid).collect();
    assert_eq!(top, vec![2, 4, 1, 3]);
    let every: Vec<u32> = top_processes(&all, 10).iter().map(|x| x.pid).collect();
    assert_eq!(every, vec![2, 4, 1, 3, 5]);
    assert!(top_processes(&all, 0).is_empty());
}

#[test]
fn clock_counts_narrow_to_u64() {
    assert_eq!(nanos_as_u64(0), 0);
    assert_eq!(nanos_as_u64(1_500), 1_500);
    assert_eq!(nanos_as_u64(u64::MAX as u128), u64::MAX);
    assert_eq!(nanos_as_u64(u64::MAX as u128 + 1), u64::MAX);
    assert_eq!(nanos_as_u64(u128::MAX), u64::MAX);
}
