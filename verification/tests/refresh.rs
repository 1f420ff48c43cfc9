use process_manager::manager::monitoring::{
    compute_cpu_usage, estimate_cpu, refresh_processes, CpuSample, RefreshError, Sighting,
};
use process_manager::manager::Manager;
use process_manager::platform::Platform;
use process_manager::process::table::ProcessTable;
use process_manager::process::{Process, RawRecord};
use process_manager::user::{Privilege, User};
use std::collections::HashMap;

fn raw(ppid: i32, name: &str, utime: u64, stime: u64) -> RawRecord {
    RawRecord {
        ppid,
        ruid: 1000,
        name: name.to_string(),
        state: 'S',
        rss_pages: 512,
        nice: 0,
        utime,
        stime,
        starttime: 1000,
    }
}

fn read(pid: u32, ppid: i32, ticks: u64) -> Sighting {
    Sighting::Read { pid, raw: raw(ppid, "proc", ticks, 0) }
}

fn platform() -> Platform {
    Platform::new(100, 1, 4096)
}

#[test]
fn usage_of_one_busy_core_is_one_hundred_percent() {
    let first = CpuSample { ticks: 100, at_nanos: 0 };
    let second = CpuSample { ticks: 200, at_nanos: 1_000_000_000 };
    assert_eq!(estimate_cpu(second, Some(first), &platform()), 10_000);
}

#[test]
fn usage_is_spread_over_the_cores() {
    let p = Platform::new(100, 4, 4096);
    let first = CpuSample { ticks: 100, at_nanos: 0 };
    let second = CpuSample { ticks: 200, at_nanos: 1_000_000_000 };
    assert_eq!(estimate_cpu(second, Some(first), &p), 2_500);
}

#[test]
fn usage_rounds_down() {
    assert_eq!(compute_cpu_usage(1, 3_000_000_000, 100, 1), 33);
}

#[test]
fn usage_without_an_earlier_sample_is_zero() {
    let now = CpuSample { ticks: 5_000, at_nanos: 7_000_000_000 };
    assert_eq!(estimate_cpu(now, None, &platform()), 0);
}

#[test]
fn usage_is_zero_where_no_time_has_passed() {
    let first = CpuSample { ticks: 100, at_nanos: 50 };
    let second = CpuSample { ticks: 200, at_nanos: 50 };
    assert_eq!(estimate_cpu(second, Some(first), &platform()), 0);
    let earlier = CpuSample { ticks: 200, at_nanos: 40 };
    assert_eq!(estimate_cpu(earlier, Some(first), &platform()), 0);
}

#[test]
fn usage_is_zero_where_the_ticks_went_back() {
    let first = CpuSample { ticks: 300, at_nanos: 0 };
    let second = CpuSample { ticks: 200, at_nanos: 1_000_000_000 };
    assert_eq!(estimate_cpu(second, Some(first), &platform()), 0);
}

#[test]
fn usage_is_capped() {
    assert_eq!(compute_cpu_usage(u64::MAX, 1, 1, 1), u64::MAX);
}

#[test]
fn usage_with_a_huge_divisor_is_zero() {
    assert_eq!(compute_cpu_usage(u64::MAX, u64::MAX, u64::MAX, u64::MAX), 0);
}

#[test]
fn usage_with_a_zero_divisor_is_zero() {
    assert_eq!(compute_cpu_usage(100, 1_000_000_000, 0, 1), 0);
    assert_eq!(compute_cpu_usage(100, 1_000_000_000, 100, 0), 0);
}

#[test]
fn table_holds_exactly_what_was_listed_and_read() {
    let mut table = ProcessTable::new();
    let mut history: HashMap<u32, CpuSample> = HashMap::new();
    let snapshot = vec![
        read(1, 0, 10),
        Sighting::Unlisted,
        Sighting::Unreadable { pid: 7 },
        read(9, 1, 20),
    ];
    let loaded = refresh_processes(&mut table, &mut history, Ok(snapshot), 5, 100, &platform());
    assert!(matches!(loaded, Ok(2)));
    assert_eq!(table.len(), 2);
    assert!(table.contains(1));
    assert!(table.contains(9));
    assert!(!table.contains(7));
    assert_eq!(history.len(), 2);
    assert_eq!(history.get(&1), Some(&CpuSample { ticks: 10, at_nanos: 5 }));
    assert_eq!(history.get(&9), Some(&CpuSample { ticks: 20, at_nanos: 5 }));
}

#[test]
fn first_sighting_has_zero_usage_and_second_is_estimated() {
    let mut table = ProcessTable::new();
    let mut history: HashMap<u32, CpuSample> = HashMap::new();
    let first = refresh_processes(&mut table, &mut history, Ok(vec![read(4, 1, 100)]), 0, 100, &platform());
    assert!(matches!(first, Ok(1)));
    assert_eq!(table.get(4).unwrap().pcb_data.cpu_percent, 0);
    let second = refresh_processes(
        &mut table,
        &mut history,
        Ok(vec![read(4, 1, 200), read(5, 1, 900)]),
        1_000_000_000,
        200,
        &platform(),
    );
    assert!(matches!(second, Ok(2)));
    assert_eq!(table.get(4).unwrap().pcb_data.cpu_percent, 10_000);
    assert_eq!(table.get(5).unwrap().pcb_data.cpu_percent, 0);
}

#[test]
fn failed_enumeration_leaves_table_and_samples_untouched() {
    let mut table = ProcessTable::new();
    let mut history: HashMap<u32, CpuSample> = HashMap::new();
    let _ = refresh_processes(&mut table, &mut history, Ok(vec![read(4, 1, 100)]), 0, 100, &platform());
    let failed = refresh_processes(&mut table, &mut history, Err("no proc".to_string()), 9, 100, &platform());
    match failed {
        Err(RefreshError::EnumerationFailed { reason }) => assert_eq!(reason, "no proc"),
        Ok(_) => panic!("a failed enumeration must fail the cycle"),
    }
    assert_eq!(table.len(), 1);
    assert!(table.contains(4));
    assert_eq!(history.get(&4), Some(&CpuSample { ticks: 100, at_nanos: 0 }));
}

#[test]
fn samples_of_vanished_processes_are_pruned() {
    let mut table = ProcessTable::new();
    let mut history: HashMap<u32, CpuSample> = HashMap::new();
    let _ = refresh_processes(
        &mut table,
        &mut history,
        Ok(vec![read(4, 1, 100), read(5, 1, 100)]),
        0,
        100,
        &platform(),
    );
    let _ = refresh_processes(
        &mut table,
        &mut history,
        Ok(vec![read(5, 1, 150), Sighting::Unreadable { pid: 4 }]),
        10,
        100,
        &platform(),
    );
    assert_eq!(history.len(), 1);
    assert!(history.contains_key(&5));
    assert!(!table.contains(4));
}

#[test]
fn a_pid_read_twice_keeps_its_place_and_its_last_reading() {
    let mut table = ProcessTable::new();
    let mut history: HashMap<u32, CpuSample> = HashMap::new();
    let snapshot = vec![
        Sighting::Read { pid: 3, raw: raw(1, "old", 1, 1) },
        read(8, 1, 5),
        Sighting::Read { pid: 3, raw: raw(1, "new", 2, 2) },
    ];
    let loaded = refresh_processes(&mut table, &mut history, Ok(snapshot), 0, 100, &platform());
    assert!(matches!(loaded, Ok(3)));
    assert_eq!(table.len(), 2);
    assert_eq!(table.entry(0).process_id, 3);
    assert_eq!(table.entry(0).name, "new");
    assert_eq!(table.entry(1).process_id, 8);
    assert_eq!(history.get(&3), Some(&CpuSample { ticks: 4, at_nanos: 0 }));
}

#[test]
fn two_cycles_over_the_same_snapshot_differ_in_usage_only() {
    let user = User::new(0, "root", Privilege::Admin);
    let snapshot = || Ok(vec![read(1, 0, 100), read(2, 1, 50), Sighting::Unreadable { pid: 3 }]);
    let mut manager = Manager::new(user, platform(), snapshot(), 0, 5_000).unwrap();
    let before: Vec<Process> = manager.processes().into_iter().cloned().collect();
    assert!(manager.refresh(snapshot(), 2_000_000_000, 5_000).is_ok());
    let after: Vec<Process> = manager.processes().into_iter().cloned().collect();
    assert_eq!(before.len(), after.len());
    for (a, b) in before.iter().zip(after.iter()) {
        assert_eq!(a.process_id, b.process_id);
        assert_eq!(a.user_id, b.user_id);
        assert_eq!(a.name, b.name);
        assert_eq!(a.parent_id, b.parent_id);
        assert_eq!(a.pcb_data.memory_rss_mb, b.pcb_data.memory_rss_mb);
        assert_eq!(a.pcb_data.state, b.pcb_data.state);
        assert_eq!(a.pcb_data.priority, b.pcb_data.priority);
        assert_eq!(a.pcb_data.uptime_seconds, b.pcb_data.uptime_seconds);
    }
}

#[test]
fn manager_is_not_made_from_a_failed_enumeration() {
    let user = User::new(0, "root", Privilege::Admin);
    let made = Manager::new(user, platform(), Err("denied".to_string()), 0, 0);
    assert!(matches!(made, Err(RefreshError::EnumerationFailed { .. })));
}

#[test]
fn record_is_derived_from_the_reading() {
    let reading = RawRecord {
        ppid: 42,
        ruid: 1001,
        name: "worker".to_string(),
        state: 'R',
        rss_pages: 1024,
        nice: -5,
        utime: 70,
        stime: 30,
        starttime: 500,
    };
    let p = Process::from_raw(77, &reading, &platform(), 1_000);
    assert_eq!(p.process_id, 77);
    assert_eq!(p.user_id, 1001);
    assert_eq!(p.name, "worker");
    assert_eq!(p.parent_id, Some(42));
    assert_eq!(p.pcb_data.cpu_percent, 0);
    assert_eq!(p.pcb_data.memory_rss_mb, 4);
    assert_eq!(p.pcb_data.state, 'R');
    assert_eq!(p.pcb_data.priority, -5);
    assert_eq!(p.pcb_data.uptime_seconds, 5);
    assert_eq!(Process::get_cpu_time_jiffies(&reading), 100);
}

#[test]
fn record_of_a_process_without_parent() {
    let p = Process::from_raw(1, &raw(0, "init", 0, 0), &platform(), 0);
    assert_eq!(p.parent_id, None);
    assert_eq!(p.pcb_data.uptime_seconds, 0);
}

#[test]
fn derived_values_are_capped() {
    assert_eq!(Process::resident_mb(u64::MAX, u64::MAX), u64::MAX);
    assert_eq!(Process::resident_mb(3, 1_048_576), 3);
    assert_eq!(Process::resident_mb(255, 4096), 0);
    let mut reading = raw(1, "big", u64::MAX, 5);
    assert_eq!(Process::get_cpu_time_jiffies(&reading), u64::MAX);
    reading.nice = 19;
    assert_eq!(Process::from_raw(2, &reading, &platform(), 0).pcb_data.priority, 19);
}

#[test]
fn uptime_is_counted_from_the_start_tick() {
    assert_eq!(Process::calculate_uptime(1_000, 2_000, 100), 10);
    assert_eq!(Process::calculate_uptime(1_000, 1_000, 100), 0);
    assert_eq!(Process::calculate_uptime(5_000, 1_000, 100), 0);
    assert_eq!(Process::calculate_uptime(0, 12_345, 250), 123);
    assert_eq!(Process::calculate_uptime(0, 100, 0), 0);
}

#[test]
fn set_cpu_percent_changes_the_usage_only() {
    let mut p = Process::from_raw(3, &raw(1, "x", 1, 1), &platform(), 10_000);
    let before = p.clone();
    p.set_cpu_percent(1_234);
    assert_eq!(p.pcb_data.cpu_percent, 1_234);
    assert_eq!(p.process_id, before.process_id);
    assert_eq!(p.name, before.name);
    assert_eq!(p.pcb_data.uptime_seconds, before.pcb_data.uptime_seconds);
    assert_eq!(p.pcb_data.memory_rss_mb, before.pcb_data.memory_rss_mb);
}

#[test]
fn platform_falls_back_to_its_defaults() {
    let p = Platform::new(0, 0, 4096);
    assert_eq!(p.tick_hz, 100);
    assert_eq!(p.core_count, 1);
    assert_eq!(p.page_size, 4096);
    let q = Platform::new(250, 8, 16384);
    assert_eq!(q.tick_hz, 250);
    assert_eq!(q.core_count, 8);
}

#[test]
fn a_failed_refresh_leaves_the_manager_as_it_was() {
    let user = User::new(0, "root", Privilege::Admin);
    let mut manager = Manager::new(user, platform(), Ok(vec![read(1, 0, 100), read(2, 1, 50)]), 0, 0).unwrap();
    let failed = manager.refresh(Err("gone".to_string()), 10, 10);
    assert!(matches!(failed, Err(RefreshError::EnumerationFailed { .. })));
    assert_eq!(manager.processes().len(), 2);
    assert_eq!(manager.previous_cpu_times.len(), 2);
    assert_eq!(manager.root_pid, 1);
    assert!(manager.active_user.is_admin());
}
