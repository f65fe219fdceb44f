use jittersnoop::plan::{
    demo_commands, pick_demo_core, status, DemoTarget, MonitorPlan, PlanError,
};
use jittersnoop::probe::{jittersnoop as exit_status, parse_switch, try_jittersnoop, Reading, Step};

fn comm(name: &[u8]) -> [u8; 16] {
    let mut out = [0u8; 16];
    out[..name.len()].copy_from_slice(name);
    out
}

fn reading(now: u64, prev: (i32, &[u8]), next_pid: i32) -> Reading {
    Reading {
        cpu: 3,
        core_monitored: true,
        now,
        prev_pid: Some(prev.0),
        prev_comm: Some(comm(prev.1)),
        next_pid: Some(next_pid),
        start_ts: Some(0),
        victim_pid: Some(0),
        victim_comm: Some([0; 16]),
        threshold_ns: Some(1_000),
        pid_match: false,
        no_pid_filter: true,
    }
}

fn after(mut r: Reading, step: &Step) -> Reading {
    r.start_ts = Some(step.start_ts);
    r.victim_pid = Some(step.victim_pid);
    r.victim_comm = Some(step.victim_comm);
    r
}

#[test]
fn other_cores_are_ignored() {
    let mut r = reading(5_000, (7, b"a"), 8);
    r.core_monitored = false;
    r.prev_pid = None;
    let outcome = try_jittersnoop(&r);
    assert!(matches!(outcome, Ok(None)));
    assert_eq!(exit_status(&outcome), 0);
}

#[test]
fn unreadable_fields_are_errors() {
    for field in 0..6 {
        let mut r = reading(5_000, (7, b"a"), 8);
        match field {
            0 => r.prev_pid = None,
            1 => r.next_pid = None,
            2 => r.prev_comm = None,
            3 => r.start_ts = None,
            4 => r.victim_pid = None,
            _ => r.victim_comm = None,
        }
        let outcome = try_jittersnoop(&r);
        assert!(matches!(outcome, Err(1)));
        assert_eq!(exit_status(&outcome), 1);
    }
}

#[test]
fn interruption_is_reported() {
    let first = try_jittersnoop(&reading(10_000, (42, b"victim"), 99)).unwrap().unwrap();
    assert!(first.event.is_none());
    assert_eq!(first.start_ts, 10_000);
    assert_eq!(first.victim_pid, 42);
    let back = after(reading(15_000, (99, b"aggressor"), 42), &first);
    let second = try_jittersnoop(&back).unwrap().unwrap();
    let e = second.event.unwrap();
    assert_eq!(e.timestamp_ns, 15_000);
    assert_eq!(e.duration_ns, 5_000);
    assert_eq!(e.cpu_id, 3);
    assert_eq!(e.victim_pid, 42);
    assert_eq!(e.aggressor_pid, 99);
    assert_eq!(e.victim_comm, comm(b"victim"));
    assert_eq!(e.aggressor_comm, comm(b"aggressor"));
    assert_eq!(second.victim_pid, 99);
    assert_eq!(second.start_ts, 15_000);
}

#[test]
fn another_task_coming_in_is_no_interruption() {
    let first = try_jittersnoop(&reading(10_000, (42, b"victim"), 99)).unwrap().unwrap();
    let r = after(reading(15_000, (99, b"aggressor"), 43), &first);
    assert!(try_jittersnoop(&r).unwrap().unwrap().event.is_none());
}

#[test]
fn threshold_is_the_shortest_reported() {
    let first = try_jittersnoop(&reading(10_000, (42, b"v"), 99)).unwrap().unwrap();
    let r = after(reading(10_999, (99, b"a"), 42), &first);
    assert!(try_jittersnoop(&r).unwrap().unwrap().event.is_none());
    let r = after(reading(11_000, (99, b"a"), 42), &first);
    assert!(try_jittersnoop(&r).unwrap().unwrap().event.is_some());
}

#[test]
fn threshold_has_a_default() {
    let first = try_jittersnoop(&reading(10_000, (42, b"v"), 99)).unwrap().unwrap();
    let mut r = after(reading(10_999, (99, b"a"), 42), &first);
    r.threshold_ns = None;
    assert!(try_jittersnoop(&r).unwrap().unwrap().event.is_none());
    r.now = 11_000;
    assert!(try_jittersnoop(&r).unwrap().unwrap().event.is_some());
}

#[test]
fn unlisted_tasks_are_left_out() {
    let first = try_jittersnoop(&reading(10_000, (42, b"v"), 99)).unwrap().unwrap();
    let mut r = after(reading(15_000, (99, b"a"), 42), &first);
    r.no_pid_filter = false;
    assert!(try_jittersnoop(&r).unwrap().unwrap().event.is_none());
    r.pid_match = true;
    assert!(try_jittersnoop(&r).unwrap().unwrap().event.is_some());
}

#[test]
fn clock_going_back_gives_no_duration() {
    let first = try_jittersnoop(&reading(10_000, (42, b"v"), 99)).unwrap().unwrap();
    let mut r = after(reading(9_000, (99, b"a"), 42), &first);
    assert!(try_jittersnoop(&r).unwrap().unwrap().event.is_none());
    r.threshold_ns = Some(0);
    assert_eq!(try_jittersnoop(&r).unwrap().unwrap().event.unwrap().duration_ns, 0);
}

#[test]
fn first_switch_reports_nothing() {
    let mut r = reading(15_000, (99, b"a"), 0);
    r.threshold_ns = Some(0);
    assert!(try_jittersnoop(&r).unwrap().unwrap().event.is_none());
}

#[test]
fn plan_needs_a_core() {
    let refused = MonitorPlan::new(vec![], vec![5], 1_000, None);
    match refused {
        Err(PlanError::NoCores) => {}
        Ok(_) => panic!("a plan without cores"),
    }
    assert_eq!(
        PlanError::NoCores.message(),
        "specify --cores or use --demo for a quick start"
    );
}

#[test]
fn plan_takes_the_settings() {
    let plan = MonitorPlan::new(vec![4, 5], vec![10, 11], 2_000, None).ok().unwrap();
    assert_eq!(plan.cores, vec![4, 5]);
    assert_eq!(plan.pids, vec![10, 11]);
    assert_eq!(plan.threshold_ns, 2_000);
    assert_eq!(plan.pid_filter(), vec![10, 11]);
    assert!(!plan.monitors_all());
}

#[test]
fn plan_without_tasks_monitors_all() {
    let plan = MonitorPlan::new(vec![4], vec![], 1_000, None).ok().unwrap();
    assert_eq!(plan.pid_filter(), vec![0]);
    assert!(plan.monitors_all());
}

#[test]
fn listed_zero_is_a_task_like_any_other() {
    let plan = MonitorPlan::new(vec![3], vec![0, 5], 1_000, None).ok().unwrap();
    assert_eq!(plan.pid_filter(), vec![0, 5]);
    assert!(!plan.monitors_all());
    let mut r = reading(15_000, (99, b"a"), 7);
    r.start_ts = Some(10_000);
    r.victim_pid = Some(7);
    r.no_pid_filter = plan.monitors_all();
    r.pid_match = plan.pid_filter().contains(&7);
    assert!(try_jittersnoop(&r).unwrap().unwrap().event.is_none());
    r.victim_pid = Some(0);
    r.next_pid = Some(0);
    r.pid_match = plan.pid_filter().contains(&0);
    assert!(try_jittersnoop(&r).unwrap().unwrap().event.is_some());
}

#[test]
fn switch_record_is_read_by_its_layout() {
    let mut record = [0xaau8; 64];
    record[8..24].copy_from_slice(&comm(b"leaving"));
    record[24..28].copy_from_slice(&42i32.to_le_bytes());
    record[56..60].copy_from_slice(&(-7i32).to_le_bytes());
    let s = parse_switch(&record).unwrap();
    assert_eq!((s.prev_pid, s.prev_comm, s.next_pid), (42, comm(b"leaving"), -7));
    assert!(parse_switch(&record[..60]).is_some());
    assert!(parse_switch(&record[..59]).is_none());
}

#[test]
fn demo_brings_its_own_target() {
    let demo = Some(DemoTarget { core: 7, victim_pid: 1234 });
    let plan = MonitorPlan::new(vec![], vec![9], 1_000, demo).ok().unwrap();
    assert_eq!(plan.cores, vec![7]);
    assert_eq!(plan.pids, vec![1234]);
}

#[test]
fn demo_core_is_the_last() {
    assert_eq!(pick_demo_core(Some(8)), 7);
    assert_eq!(pick_demo_core(Some(3)), 2);
    assert_eq!(pick_demo_core(Some(2)), 1);
    assert_eq!(pick_demo_core(Some(1)), 0);
    assert_eq!(pick_demo_core(Some(0)), 0);
    assert_eq!(pick_demo_core(None), 3);
}

#[test]
fn demo_runs_four_pinned_scripts() {
    let commands = demo_commands(12);
    assert_eq!(
        commands.victim,
        vec!["-c", "12", "bash", "-c", "exec -a jsnoop-victim bash -c 'while true; do :; done'"]
    );
    assert_eq!(commands.aggressors.len(), 3);
    for (args, name) in commands.aggressors.iter().zip(["jsnoop-aggressor", "jsnoop-malloc", "jsnoop-io"]) {
        assert_eq!(args[..4], ["-c", "12", "bash", "-c"]);
        assert!(args[4].starts_with(&format!("exec -a {} bash -c 'while true; do ", name)));
        assert!(args[4].ends_with("; done'"));
    }
}

#[test]
fn uptime_counts_from_the_start() {
    let s = status(1_000, 61_500);
    assert_eq!((s.start_time_ms, s.uptime_ms), (1_000, 60_500));
    assert_eq!(status(1_000, 400).uptime_ms, 0);
}
