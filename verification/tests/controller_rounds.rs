use tau_cpu::controller::{keep_watching, Controller};
use tau_cpu::platform::{lowered_action, restored_action};
use tau_cpu::{Policy, PriorityChange, ProcessSnapshot, SystemSnapshot};

fn proc_with(pid: u32, cpu: i64, nice: Option<i32>) -> ProcessSnapshot {
    ProcessSnapshot {
        pid,
        name: format!("p{pid}"),
        cpu_percent_x100: cpu,
        memory_percent_x100: 0,
        status: "Run".to_string(),
        nice,
    }
}

fn busy() -> SystemSnapshot {
    SystemSnapshot {
        cpu_percent_x100: 9500,
        memory_percent_x100: 0,
        load_average_x100: Some([100, 200, 300]),
        process_count: 4,
        captured_at: "0".to_string(),
    }
}

#[test]
fn new_rejects_an_invalid_policy() {
    let bad = Policy { max_actions_per_cycle: 0, ..Policy::default() };
    assert_eq!(
        Controller::new(bad, 1).err(),
        Some("max actions must be positive".to_string())
    );
}

#[test]
fn own_process_is_never_a_candidate() {
    let c = Controller::new(Policy::default(), 500).unwrap();
    let sample = vec![proc_with(500, 9900, Some(0)), proc_with(501, 4000, Some(0))];
    let pids: Vec<u32> = c.candidates(&busy(), &sample).iter().map(|p| p.pid).collect();
    assert_eq!(pids, vec![501]);
}

#[test]
fn dead_and_light_processes_are_ignored() {
    let c = Controller::new(Policy::default(), 1).unwrap();
    let mut dead = proc_with(10, 9000, Some(0));
    dead.status = "Dead".to_string();
    let light = proc_with(11, 3499, Some(0));
    let exact = proc_with(12, 3500, Some(0));
    let pids: Vec<u32> = c.candidates(&busy(), &[dead, light, exact]).iter().map(|p| p.pid).collect();
    assert_eq!(pids, vec![12]);
}

#[test]
fn a_round_lowers_only_processes_below_the_background_nice() {
    let mut c = Controller::new(Policy::default(), 1).unwrap();
    let sample = vec![
        proc_with(10, 9000, Some(0)),
        proc_with(11, 8000, None),
        proc_with(12, 7000, Some(10)),
        proc_with(13, 6000, Some(-5)),
        proc_with(14, 5000, Some(15)),
    ];
    let changes = c.apply_at(&busy(), &sample, 1_000_000_000);
    let pids: Vec<u32> = changes.iter().map(|ch| ch.pid).collect();
    assert_eq!(pids, vec![10, 13]);
    assert!(changes.iter().all(|ch| ch.target_nice == 10));
    assert_eq!(changes[0].name, "p10");
}

#[test]
fn cooldown_blocks_repeats_until_it_expires() {
    let mut c = Controller::new(Policy::default(), 1).unwrap();
    let sample = vec![proc_with(10, 9000, Some(0))];
    assert_eq!(c.apply_at(&busy(), &sample, 1_000_000_000).len(), 1);
    assert!(c.apply_at(&busy(), &sample, 30_999_999_999).is_empty());
    let again = c.apply_at(&busy(), &sample, 31_000_000_000);
    assert_eq!(again.len(), 1);
    assert_eq!(again[0].pid, 10);
}

#[test]
fn no_round_without_system_pressure() {
    let mut c = Controller::new(Policy::default(), 1).unwrap();
    let mut calm = busy();
    calm.cpu_percent_x100 = 8499;
    assert!(c.apply_at(&calm, &[proc_with(10, 9000, Some(0))], 5).is_empty());
    assert!(c.restore().is_empty());
}

#[test]
fn restore_brings_back_the_first_seen_niceness_once() {
    let policy = Policy { cooldown_ms: 0, ..Policy::default() };
    let mut c = Controller::new(policy, 1).unwrap();
    c.apply_at(&busy(), &[proc_with(10, 9000, Some(2)), proc_with(20, 8000, Some(-1))], 1);
    c.apply_at(&busy(), &[proc_with(10, 9000, Some(5))], 2);
    let mut back: Vec<(u32, i32, String)> =
        c.restore().into_iter().map(|ch| (ch.pid, ch.target_nice, ch.name)).collect();
    back.sort();
    assert_eq!(
        back,
        vec![(10, 2, "10".to_string()), (20, -1, "20".to_string())]
    );
    assert!(c.restore().is_empty());
}

#[test]
fn action_records_follow_the_reports() {
    let ch = PriorityChange { pid: 9, name: "nine".to_string(), target_nice: 10 };
    let ok = lowered_action(&ch, Ok((true, "priority set to 10".to_string(), 10)));
    assert!(ok.changed && ok.detail == "priority set to 10" && ok.name == "nine" && ok.pid == 9);
    let failed = lowered_action(&ch, Err("denied".to_string()));
    assert!(!failed.changed && failed.detail == "denied");
    let restored = restored_action(&ch, Ok("priority restored to 0".to_string()));
    assert!(restored.changed && restored.detail == "priority restored to 0");
    let not_restored = restored_action(&ch, Err("gone".to_string()));
    assert!(!not_restored.changed && not_restored.detail == "gone");
}

#[test]
fn apply_uses_the_controller_clock() {
    let mut c = Controller::new(Policy::default(), 1).unwrap();
    let first = c.apply(&busy(), &[proc_with(10, 9000, Some(0))]);
    assert_eq!(first.len(), 1);
    let second = c.apply(&busy(), &[proc_with(10, 9000, Some(0))]);
    assert!(second.is_empty());
    assert!(c.now_ns() < 30_000_000_000);
}

#[test]
fn cooldown_is_measured_below_the_millisecond() {
    let policy = Policy { cooldown_ms: 1, ..Policy::default() };
    let mut c = Controller::new(policy, 1).unwrap();
    let sample = vec![proc_with(10, 9000, Some(0))];
    assert_eq!(c.apply_at(&busy(), &sample, 500).len(), 1);
    assert!(c.apply_at(&busy(), &sample, 1_000_499).is_empty());
    assert_eq!(c.apply_at(&busy(), &sample, 1_000_500).len(), 1);
}

#[test]
fn cooldown_holds_over_rounds_in_between() {
    let mut c = Controller::new(Policy::default(), 1).unwrap();
    let a = vec![proc_with(10, 9000, Some(0))];
    let b = vec![proc_with(10, 9000, Some(0)), proc_with(11, 8000, Some(1))];
    assert_eq!(c.apply_at(&busy(), &a, 0).len(), 1);
    let mid: Vec<u32> = c.apply_at(&busy(), &b, 10_000_000_000).iter().map(|ch| ch.pid).collect();
    assert_eq!(mid, vec![11]);
    assert!(c.apply_at(&busy(), &b, 29_000_000_000).is_empty());
    let later: Vec<u32> = c.apply_at(&busy(), &b, 30_000_000_000).iter().map(|ch| ch.pid).collect();
    assert_eq!(later, vec![10]);
}

#[test]
fn restore_also_forgets_cooldowns() {
    let mut c = Controller::new(Policy::default(), 1).unwrap();
    let a = vec![proc_with(10, 9000, Some(0))];
    assert_eq!(c.apply_at(&busy(), &a, 0).len(), 1);
    assert_eq!(c.restore().len(), 1);
    assert_eq!(c.apply_at(&busy(), &a, 1).len(), 1);
}

#[test]
fn candidates_ignore_sample_order_for_distinct_shares() {
    let c = Controller::new(Policy::default(), 99).unwrap();
    let s1 = vec![proc_with(1, 4000, Some(0)), proc_with(2, 9000, Some(0)), proc_with(3, 6000, Some(0))];
    let s2 = vec![proc_with(3, 6000, Some(0)), proc_with(1, 4000, Some(0)), proc_with(2, 9000, Some(0))];
    let p1: Vec<u32> = c.candidates(&busy(), &s1).iter().map(|p| p.pid).collect();
    let p2: Vec<u32> = c.candidates(&busy(), &s2).iter().map(|p| p.pid).collect();
    assert_eq!(p1, vec![2, 3, 1]);
    assert_eq!(p1, p2);
}

#[test]
fn watching_stops_on_request_or_at_the_limit() {
    assert!(keep_watching(false, 5, None));
    assert!(!keep_watching(true, 5, None));
    assert!(keep_watching(false, 4, Some(5)));
    assert!(!keep_watching(false, 5, Some(5)));
    assert!(!keep_watching(true, 0, Some(5)));
}
