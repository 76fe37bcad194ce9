use procmon::monitor::{find_all_relation, process_exists, ProcessMonitor};
use procmon::process::{get_process_by_pid, ProcessIdentifier, Sample};

fn row(pid: u64, parent: Option<u64>, name: &str) -> Sample {
    Sample {
        pid,
        parent_pid: parent,
        name: name.to_string(),
        cpu: 0,
        memory: 0,
        is_thread: false,
    }
}

fn sorted(mut v: Vec<u64>) -> Vec<u64> {
    v.sort();
    v
}

#[test]
fn resolves_pid_with_transitive_descendants() {
    // A(1) <- B(2) <- C(3), and an unrelated root D(4).
    let snapshot = vec![
        row(1, None, "a"),
        row(2, Some(1), "b"),
        row(3, Some(2), "c"),
        row(4, None, "d"),
    ];
    let r = find_all_relation(&ProcessIdentifier::Pid(1), &snapshot).unwrap();
    assert_eq!(sorted(r), vec![1, 2, 3]);
    let r = find_all_relation(&ProcessIdentifier::Pid(4), &snapshot).unwrap();
    assert_eq!(r, vec![4]);
    assert!(find_all_relation(&ProcessIdentifier::Pid(99), &snapshot).is_none());
}

#[test]
fn resolves_name_merging_all_matches() {
    // Two processes named "worker" (6 a child of 5) and one "other".
    let snapshot = vec![
        row(5, None, "worker"),
        row(6, Some(5), "worker"),
        row(7, None, "other"),
    ];
    let r = find_all_relation(&ProcessIdentifier::Name("worker".to_string()), &snapshot).unwrap();
    assert_eq!(sorted(r), vec![5, 6]);
    let r = find_all_relation(&ProcessIdentifier::Name("other".to_string()), &snapshot).unwrap();
    assert_eq!(r, vec![7]);
    assert!(
        find_all_relation(&ProcessIdentifier::Name("missing".to_string()), &snapshot).is_none()
    );
}

#[test]
fn name_matching_is_case_sensitive_and_exact() {
    let snapshot = vec![row(1, None, "Worker"), row(2, None, "workers")];
    assert!(find_all_relation(&ProcessIdentifier::Name("worker".to_string()), &snapshot).is_none());
    let r = find_all_relation(&ProcessIdentifier::Name("Worker".to_string()), &snapshot).unwrap();
    assert_eq!(r, vec![1]);
}

#[test]
fn resolver_terminates_on_a_parent_cycle() {
    // A pathological snapshot where 1 and 2 claim each other as parent.
    let snapshot = vec![row(1, Some(2), "a"), row(2, Some(1), "b"), row(3, None, "c")];
    let r = find_all_relation(&ProcessIdentifier::Pid(1), &snapshot).unwrap();
    assert_eq!(sorted(r), vec![1, 2]);
}

#[test]
fn resolver_result_has_no_duplicates_when_trees_overlap() {
    // Both "srv" roots share the descendant chain through 11.
    let snapshot = vec![
        row(10, None, "srv"),
        row(11, Some(10), "srv"),
        row(12, Some(11), "leaf"),
    ];
    let r = find_all_relation(&ProcessIdentifier::Name("srv".to_string()), &snapshot).unwrap();
    assert_eq!(sorted(r), vec![10, 11, 12]);
}

#[test]
fn resolver_is_deterministic_for_a_snapshot() {
    let snapshot = vec![
        row(1, None, "a"),
        row(2, Some(1), "b"),
        row(3, Some(1), "c"),
        row(4, Some(2), "d"),
    ];
    let r1 = find_all_relation(&ProcessIdentifier::Pid(1), &snapshot).unwrap();
    let r2 = find_all_relation(&ProcessIdentifier::Pid(1), &snapshot).unwrap();
    assert_eq!(r1, r2);
    // breadth-first discovery order: seed, direct children, grandchild
    assert_eq!(r1, vec![1, 2, 3, 4]);
}

#[test]
fn process_exists_matches_pid_and_name() {
    let snapshot = vec![row(1, None, "a"), row(2, Some(1), "b")];
    assert!(process_exists(&ProcessIdentifier::Pid(2), &snapshot));
    assert!(!process_exists(&ProcessIdentifier::Pid(3), &snapshot));
    assert!(process_exists(&ProcessIdentifier::Name("a".to_string()), &snapshot));
    assert!(!process_exists(&ProcessIdentifier::Name("z".to_string()), &snapshot));
}

#[test]
fn lookup_by_pid_finds_the_row() {
    let snapshot = vec![row(1, None, "a"), row(2, Some(1), "b")];
    let s = get_process_by_pid(&snapshot, 2).unwrap();
    assert_eq!(s.pid, 2);
    assert_eq!(s.parent_pid, Some(1));
    assert_eq!(s.name, "b");
    assert!(get_process_by_pid(&snapshot, 9).is_none());
}

#[test]
fn interval_gate_triggers_only_after_the_interval() {
    let mut gate = ProcessMonitor::new(1000);
    assert_eq!(gate.update_interval(), 1000);
    assert!(!gate.should_update(999));
    assert!(gate.should_update(1000));
    gate.update(1000);
    assert!(!gate.should_update(1500));
    assert!(gate.should_update(2000));
    gate.set_update_interval(200);
    assert!(gate.should_update(1200));
    // a clock that moved backwards is never due
    assert!(!gate.should_update(500));
}

#[test]
fn identifier_to_pid_and_equality() {
    assert_eq!(ProcessIdentifier::Pid(7).to_pid(), Some(7));
    assert_eq!(ProcessIdentifier::Name("x".to_string()).to_pid(), None);
    assert_eq!(
        ProcessIdentifier::Name("x".to_string()),
        ProcessIdentifier::Name("x".to_string())
    );
    assert_ne!(
        ProcessIdentifier::Name("7".to_string()),
        ProcessIdentifier::Pid(7)
    );
}
