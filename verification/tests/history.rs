use procmon::history::{ProcessHistory, ProcessMetrics};
use procmon::metrics::snapshot_within_limits;
use procmon::process::Sample;

#[test]
fn store_creates_entries_lazily_and_pushes() {
    let mut h = ProcessHistory::new(3);
    assert!(!h.contains_pid(&1));
    h.update_cpu(1, 10);
    h.update_memory(1, 100);
    h.update_cpu(1, 20);
    h.update_memory(1, 200);
    assert!(h.contains_pid(&1));
    assert_eq!(h.get_cpu_history(&1).unwrap(), vec![10, 20]);
    assert_eq!(h.get_memory_history(&1).unwrap(), vec![100, 200]);
    assert!(h.get_cpu_history(&2).is_none());
}

#[test]
fn store_windows_evict_at_capacity() {
    let mut h = ProcessHistory::new(2);
    for v in [1u64, 2, 3, 4] {
        h.update_cpu(7, v);
    }
    assert_eq!(h.get_cpu_history(&7).unwrap(), vec![3, 4]);
}

#[test]
fn data_history_reports_peaks_and_means() {
    let mut h = ProcessHistory::new(4);
    h.update_cpu(5, 10);
    h.update_cpu(5, 30);
    h.update_memory(5, 100);
    h.update_memory(5, 50);
    assert_eq!(h.get_data_history(&5), (30, 100, 20, 75));
    // a pid with no history reports zeroes
    assert_eq!(h.get_data_history(&6), (0, 0, 0, 0));
}

#[test]
fn cleanup_keeps_only_active_pids() {
    let mut h = ProcessHistory::new(3);
    h.update_cpu(1, 1);
    h.update_cpu(2, 2);
    h.update_cpu(3, 3);
    h.cleanup_histories(&vec![1, 3]);
    assert!(h.contains_pid(&1));
    assert!(!h.contains_pid(&2));
    assert!(h.contains_pid(&3));
    // surviving histories are untouched
    assert_eq!(h.get_cpu_history(&3).unwrap(), vec![3]);
    h.cleanup_histories(&Vec::new());
    assert!(!h.contains_pid(&1));
    assert!(!h.contains_pid(&3));
}

#[test]
fn metrics_pair_tracks_both_series() {
    let mut m = ProcessMetrics::new(2);
    m.update_cpu(4);
    m.update_memory(9);
    assert_eq!(m.get_cpu_history(), vec![4]);
    assert_eq!(m.get_memory_history(), vec![9]);
}

#[test]
fn snapshot_limits_reject_overflowing_totals() {
    let small = vec![Sample {
        pid: 1,
        parent_pid: None,
        name: "a".to_string(),
        cpu: 5,
        memory: 5,
        is_thread: false,
    }];
    assert!(snapshot_within_limits(&small));

    let huge = vec![
        Sample {
            pid: 1,
            parent_pid: None,
            name: "a".to_string(),
            cpu: u64::MAX,
            memory: 1,
            is_thread: false,
        },
        Sample {
            pid: 2,
            parent_pid: None,
            name: "b".to_string(),
            cpu: u64::MAX,
            memory: 1,
            is_thread: false,
        },
    ];
    assert!(!snapshot_within_limits(&huge));
}
