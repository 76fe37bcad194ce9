use procmon::metrics::Metrics;
use procmon::process::{MemoryUnit, MetricType, ProcessIdentifier, SortType, Sample};

fn proc_row(pid: u64, parent: Option<u64>, name: &str, cpu: u64, memory: u64) -> Sample {
    Sample {
        pid,
        parent_pid: parent,
        name: name.to_string(),
        cpu,
        memory,
        is_thread: false,
    }
}

fn thread_row(pid: u64, parent: Option<u64>, name: &str, cpu: u64, memory: u64) -> Sample {
    Sample {
        pid,
        parent_pid: parent,
        name: name.to_string(),
        cpu,
        memory,
        is_thread: true,
    }
}

#[test]
fn tick_aggregates_a_process_tree() {
    let mut m = Metrics::new(10, 1000);
    m.add_selected_process(ProcessIdentifier::Pid(1));
    let snapshot = vec![
        proc_row(1, None, "root", 250, 1000),
        proc_row(2, Some(1), "child", 150, 500),
        proc_row(9, None, "other", 9999, 9999),
    ];
    m.update_metrics(&snapshot);
    let data = m.get_process_data(&ProcessIdentifier::Pid(1)).unwrap();
    assert_eq!(data.general.stats.current_cpu, 400);
    assert_eq!(data.general.stats.current_memory, 1500);
    assert_eq!(data.general.stats.process_count, 2);
    assert_eq!(data.general.stats.thread_count, 0);
    assert_eq!(data.general.stats.peak_cpu, 400);
    assert_eq!(data.general.stats.avg_cpu, 400);
    assert_eq!(data.processes_stats.len(), 2);
    assert_eq!(data.processes_stats[0].pid, 1);
    assert_eq!(data.processes_stats[1].pid, 2);
    assert_eq!(data.processes_stats[1].current_cpu, 150);
    // the unrelated process contributes nothing
    assert!(!data.history.contains_pid(&9));
}

#[test]
fn threads_count_but_do_not_contribute() {
    // A thread with nonzero memory must not enter the sums or the
    // process count, but must increment the thread count.
    let mut m = Metrics::new(10, 1000);
    m.add_selected_process(ProcessIdentifier::Pid(1));
    let snapshot = vec![
        proc_row(1, None, "root", 100, 1000),
        thread_row(2, Some(1), "root-thread", 70, 777),
    ];
    m.update_metrics(&snapshot);
    let data = m.get_process_data(&ProcessIdentifier::Pid(1)).unwrap();
    assert_eq!(data.general.stats.current_cpu, 100);
    assert_eq!(data.general.stats.current_memory, 1000);
    assert_eq!(data.general.stats.process_count, 1);
    assert_eq!(data.general.stats.thread_count, 1);
    // the thread's member record shows zero memory
    assert_eq!(data.processes_stats.len(), 2);
    assert!(data.processes_stats[1].is_thread);
    assert_eq!(data.processes_stats[1].current_memory, 0);
}

#[test]
fn two_ticks_on_an_identical_snapshot_are_idempotent() {
    // Identical snapshots give identical current values while the
    // history keeps growing until capacity.
    let mut m = Metrics::new(10, 1000);
    m.add_selected_process(ProcessIdentifier::Pid(1));
    let snapshot = vec![proc_row(1, None, "root", 300, 2000)];
    m.update_metrics(&snapshot);
    let (cpu1, mem1, len1) = {
        let d = m.get_process_data(&ProcessIdentifier::Pid(1)).unwrap();
        (
            d.general.stats.current_cpu,
            d.general.stats.current_memory,
            d.general.history.cpu.len(),
        )
    };
    m.update_metrics(&snapshot);
    let d = m.get_process_data(&ProcessIdentifier::Pid(1)).unwrap();
    assert_eq!(d.general.stats.current_cpu, cpu1);
    assert_eq!(d.general.stats.current_memory, mem1);
    assert_eq!(len1, 1);
    assert_eq!(d.general.history.cpu.len(), 2);
}

#[test]
fn a_vanished_member_is_pruned_on_the_next_tick() {
    let mut m = Metrics::new(10, 1000);
    m.add_selected_process(ProcessIdentifier::Pid(1));
    let tick1 = vec![
        proc_row(1, None, "root", 10, 100),
        proc_row(2, Some(1), "child", 20, 200),
    ];
    m.update_metrics(&tick1);
    assert!(m
        .get_process_data(&ProcessIdentifier::Pid(1))
        .unwrap()
        .history
        .contains_pid(&2));
    let tick2 = vec![proc_row(1, None, "root", 10, 100)];
    m.update_metrics(&tick2);
    let d = m.get_process_data(&ProcessIdentifier::Pid(1)).unwrap();
    assert!(!d.history.contains_pid(&2));
    assert!(d.history.contains_pid(&1));
    assert_eq!(d.general.stats.process_count, 1);
}

#[test]
fn a_vanished_target_keeps_the_group_but_empties_it() {
    let mut m = Metrics::new(10, 1000);
    m.add_selected_process(ProcessIdentifier::Pid(1));
    let tick1 = vec![proc_row(1, None, "root", 10, 100)];
    m.update_metrics(&tick1);
    let tick2 = vec![proc_row(5, None, "unrelated", 1, 1)];
    m.update_metrics(&tick2);
    // the group stays addressable, with no live members
    assert!(m
        .get_monitored_processes()
        .iter()
        .any(|id| *id == ProcessIdentifier::Pid(1)));
    let d = m.get_process_data(&ProcessIdentifier::Pid(1)).unwrap();
    assert!(!d.history.contains_pid(&1));
    assert_eq!(d.general.stats.process_count, 0);
    assert_eq!(d.general.stats.current_cpu, 0);
    assert_eq!(d.processes_stats.len(), 0);
    // and it repopulates once the target reappears
    m.update_metrics(&tick1);
    let d = m.get_process_data(&ProcessIdentifier::Pid(1)).unwrap();
    assert_eq!(d.general.stats.process_count, 1);
}

#[test]
fn capacity_change_discards_history() {
    // Changing the configured capacity rebuilds the store empty: the
    // next tick starts from scratch, not from a truncated copy.
    let mut m = Metrics::new(100, 1000);
    m.add_selected_process(ProcessIdentifier::Pid(1));
    let snapshot = vec![proc_row(1, None, "root", 10, 100)];
    m.update_metrics(&snapshot);
    m.update_metrics(&snapshot);
    m.update_metrics(&snapshot);
    {
        let d = m.get_process_data(&ProcessIdentifier::Pid(1)).unwrap();
        assert_eq!(d.history.get_cpu_history(&1).unwrap().len(), 3);
        assert_eq!(d.general.history.cpu.len(), 3);
    }
    m.history_len = 50;
    m.update_metrics(&snapshot);
    let d = m.get_process_data(&ProcessIdentifier::Pid(1)).unwrap();
    assert_eq!(d.history.history_len, 50);
    assert_eq!(d.history.get_cpu_history(&1).unwrap(), vec![10]);
    assert_eq!(d.general.history.cpu.len(), 1);
}

#[test]
fn name_group_merges_all_matching_trees() {
    let mut m = Metrics::new(10, 1000);
    m.add_selected_process(ProcessIdentifier::Name("worker".to_string()));
    let snapshot = vec![
        proc_row(5, None, "worker", 100, 10),
        proc_row(6, Some(5), "worker", 50, 20),
        proc_row(7, None, "other", 1000, 1000),
    ];
    m.update_metrics(&snapshot);
    let d = m
        .get_process_data(&ProcessIdentifier::Name("worker".to_string()))
        .unwrap();
    assert_eq!(d.general.stats.current_cpu, 150);
    assert_eq!(d.general.stats.current_memory, 30);
    assert_eq!(d.general.stats.process_count, 2);
}

#[test]
fn per_member_stats_track_their_own_history() {
    let mut m = Metrics::new(10, 1000);
    m.add_selected_process(ProcessIdentifier::Pid(1));
    m.update_metrics(&vec![proc_row(1, None, "root", 10, 100)]);
    m.update_metrics(&vec![proc_row(1, None, "root", 30, 300)]);
    let d = m.get_process_data(&ProcessIdentifier::Pid(1)).unwrap();
    let info = &d.processes_stats[0];
    assert_eq!(info.current_cpu, 30);
    assert_eq!(info.peak_cpu, 30);
    assert_eq!(info.avg_cpu, 20); // (10 + 30) / 2
    assert_eq!(info.peak_memory, 300);
    assert_eq!(info.avg_memory, 200);
    let (peak_cpu, peak_mem, avg_cpu, avg_mem) = d.history.get_data_history(&1);
    assert_eq!((peak_cpu, peak_mem, avg_cpu, avg_mem), (30, 300, 20, 200));
}

#[test]
fn add_remove_and_clear_groups() {
    let mut m = Metrics::new(10, 1000);
    let id = ProcessIdentifier::Name("svc".to_string());
    m.add_selected_process(id.clone());
    m.add_selected_process(id.clone()); // watching twice is a no-op
    assert_eq!(m.get_monitored_processes().len(), 1);

    let snapshot = vec![proc_row(3, None, "svc", 40, 400)];
    m.update_metrics(&snapshot);
    assert!(m.get_process_data(&id).is_some());

    // clearing keeps the identifier watched but resets the data
    m.clear_process_data(&id);
    let d = m.get_process_data(&id).unwrap();
    assert_eq!(d.general.stats.current_cpu, 0);
    assert!(!d.history.contains_pid(&3));
    assert_eq!(m.get_monitored_processes().len(), 1);

    // removing drops both the watch and the data
    m.remove_selected_process(&id);
    assert_eq!(m.get_monitored_processes().len(), 0);
    assert!(m.get_process_data(&id).is_none());

    // removing an unknown identifier is a no-op
    m.remove_selected_process(&ProcessIdentifier::Pid(77));
    assert_eq!(m.get_monitored_processes().len(), 0);
}

#[test]
fn groups_are_processed_independently() {
    let mut m = Metrics::new(10, 1000);
    m.add_selected_process(ProcessIdentifier::Pid(1));
    m.add_selected_process(ProcessIdentifier::Pid(4));
    let snapshot = vec![
        proc_row(1, None, "a", 10, 100),
        proc_row(2, Some(1), "b", 20, 200),
        proc_row(4, None, "d", 40, 400),
    ];
    m.update_metrics(&snapshot);
    let d1 = m.get_process_data(&ProcessIdentifier::Pid(1)).unwrap();
    assert_eq!(d1.general.stats.current_cpu, 30);
    let d4 = m.get_process_data(&ProcessIdentifier::Pid(4)).unwrap();
    assert_eq!(d4.general.stats.current_cpu, 40);
    assert_eq!(d4.general.stats.process_count, 1);
}

#[test]
fn set_update_interval_defers_to_configuration() {
    let mut m = Metrics::new(10, 1000);
    assert_eq!(m.update_interval_ms, 1000);
    m.set_update_interval(250);
    assert_eq!(m.update_interval_ms, 250);
}

#[test]
fn view_preference_types_have_expected_defaults() {
    assert_eq!(SortType::default(), SortType::AvgCpu);
    assert_eq!(MetricType::default(), MetricType::Cpu);
    assert_eq!(MemoryUnit::Bytes.divisor(), 1);
    assert_eq!(MemoryUnit::Kilobytes.divisor(), 1024);
    assert_eq!(MemoryUnit::Megabytes.divisor(), 1024 * 1024);
    assert_eq!(MemoryUnit::Gigabytes.divisor(), 1024 * 1024 * 1024);
}
