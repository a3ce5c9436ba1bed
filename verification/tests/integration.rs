use tau_cpu::{Controller, Policy, ProcessSnapshot, SystemSnapshot};

fn process(pid: u32, cpu_percent_x100: i64, status: &str) -> ProcessSnapshot {
    ProcessSnapshot {
        pid,
        name: format!("proc-{pid}"),
        cpu_percent_x100,
        memory_percent_x100: 100,
        status: status.to_string(),
        nice: Some(0),
    }
}

fn system(cpu_percent_x100: i64) -> SystemSnapshot {
    SystemSnapshot {
        cpu_percent_x100,
        memory_percent_x100: 4000,
        load_average_x100: None,
        process_count: 3,
        captured_at: "0".to_string(),
    }
}

#[test]
fn policy_rejects_invalid_interval() {
    let policy = Policy {
        interval_ms: 0,
        ..Policy::default()
    };
    assert!(policy.validate().is_err());
}

#[test]
fn candidates_require_system_pressure() {
    let controller = Controller::new(Policy::default(), 1).expect("valid policy");
    let processes = vec![process(100_001, 8000, "Run")];
    assert!(controller.candidates(&system(8490), &processes).is_empty());
    assert_eq!(controller.candidates(&system(8500), &processes).len(), 1);
}

#[test]
fn candidates_are_sorted_and_bounded() {
    let policy = Policy {
        process_threshold_x100: 1000,
        max_actions_per_cycle: 2,
        ..Policy::default()
    };
    let controller = Controller::new(policy, 1).expect("valid policy");
    let processes = vec![
        process(100_001, 2000, "Run"),
        process(100_002, 7000, "Run"),
        process(100_003, 5000, "Run"),
    ];
    let selected = controller.candidates(&system(9000), &processes);
    assert_eq!(
        selected.iter().map(|item| item.pid).collect::<Vec<u32>>(),
        vec![100_002, 100_003]
    );
}

#[test]
fn terminal_processes_are_ignored() {
    let controller = Controller::new(Policy::default(), 1).expect("valid policy");
    let processes = vec![
        process(100_001, 9000, "Zombie"),
        process(100_002, 4000, "Run"),
    ];
    let selected = controller.candidates(&system(9000), &processes);
    assert_eq!(
        selected.iter().map(|item| item.pid).collect::<Vec<u32>>(),
        vec![100_002]
    );
}
