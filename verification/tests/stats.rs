use actiowatch::models::{ComponentInfo, PortInfo, ProcessInfo, StartupApp};
use actiowatch::monitor::{Monitor, Snapshot, INTERFACE_RESCAN_PERIOD};
use actiowatch::snapshot::{ProcessSample, ProcessTable};
use actiowatch::stats::{assemble_stats, snapshot_stats, total_traffic, InterfaceTraffic, Readings};
use actiowatch::watchdog::Alert;

fn sample(pid: u32, parent: Option<u32>, start_time: u64, memory_usage: u64) -> ProcessSample {
    ProcessSample {
        pid,
        parent,
        start_time,
        name: format!("proc-{}", pid),
        cpu_usage: 1000 * pid as u64,
        memory_usage,
        disk_read: 100 + pid as u64,
        disk_write: 200 + pid as u64,
        thread_count: 2,
    }
}

fn node(pid: u32, total_disk_read: u64, total_disk_write: u64) -> ProcessInfo {
    ProcessInfo {
        pid,
        name: String::new(),
        cpu_usage: 0,
        total_cpu_usage: 0,
        memory_usage: 0,
        total_memory_usage: 0,
        disk_read: 1,
        disk_write: 1,
        total_disk_read,
        total_disk_write,
        thread_count: 0,
        children: Vec::new(),
    }
}

fn readings() -> Readings {
    Readings {
        cpu_usage: 42_500,
        memory_used: 600,
        memory_total: 1000,
        network_up: 11,
        network_down: 22,
    }
}

fn sensor(label: &str, temperature: i64) -> ComponentInfo {
    ComponentInfo {
        label: label.to_string(),
        temperature,
        max_temperature: temperature + 5_000,
        critical_temperature: if temperature > 0 { Some(100_000) } else { None },
    }
}

fn family() -> ProcessTable {
    let mut table = ProcessTable::new();
    table.insert(sample(1, None, 10, 100));
    table.insert(sample(2, Some(1), 20, 50));
    table.insert(sample(3, None, 5, 300));
    table
}

#[test]
fn traffic_is_summed_over_the_interfaces() {
    let interfaces = vec![
        InterfaceTraffic { transmitted: 5, received: 7 },
        InterfaceTraffic { transmitted: 0, received: 100 },
        InterfaceTraffic { transmitted: 20, received: 1 },
    ];
    assert_eq!(total_traffic(&interfaces), (25, 108));
    assert_eq!(total_traffic(&Vec::new()), (0, 0));
}

#[test]
fn traffic_sums_stop_at_the_largest_value() {
    let interfaces = vec![
        InterfaceTraffic { transmitted: u64::MAX - 1, received: 1 },
        InterfaceTraffic { transmitted: 5, received: 2 },
    ];
    assert_eq!(total_traffic(&interfaces), (u64::MAX, 3));
}

#[test]
fn readings_and_sensors_pass_through() {
    let sensors = vec![sensor("cpu", 55_500), sensor("ambient", -3_000)];
    let stats = assemble_stats(readings(), sensors.clone(), Vec::new(), 0);
    assert_eq!(stats.cpu_usage, 42_500);
    assert_eq!(stats.memory_used, 600);
    assert_eq!(stats.memory_total, 1000);
    assert_eq!(stats.network_up, 11);
    assert_eq!(stats.network_down, 22);
    assert_eq!(stats.gpu_usage, None);
    assert_eq!(stats.components, sensors);
    assert_eq!(stats.process_count, 0);
    assert_eq!(stats.disk_read, 0);
    assert_eq!(stats.disk_write, 0);
    assert!(stats.top_processes.is_empty());
}

#[test]
fn disk_figures_are_the_sums_over_the_roots() {
    let forest = vec![node(1, 10, 1), node(2, 20, 2), node(3, 30, 3)];
    let stats = assemble_stats(readings(), Vec::new(), forest, 3);
    assert_eq!(stats.disk_read, 60);
    assert_eq!(stats.disk_write, 6);
    assert_eq!(stats.process_count, 3);
    assert_eq!(stats.top_processes.len(), 3);
    assert!(stats.components.is_empty());
}

#[test]
fn disk_figures_follow_the_aggregation_policy() {
    let table = family();
    let plain = snapshot_stats(readings(), Vec::new(), &table, 2, false);
    assert_eq!(plain.process_count, 3);
    assert_eq!(plain.disk_read, 101 + 103);
    assert_eq!(plain.disk_write, 201 + 203);
    let summed = snapshot_stats(readings(), Vec::new(), &table, 2, true);
    assert_eq!(summed.disk_read, 101 + 102 + 103);
    assert_eq!(summed.disk_write, 201 + 202 + 203);
    let roots: Vec<u32> = summed.top_processes.iter().map(|n| n.pid).collect();
    // 1 and 3 tie at 1500 once 2 is counted in; the table order decides
    assert_eq!(roots, vec![1, 3]);
    assert_eq!(summed.top_processes[0].total_cpu_usage, 500 + 1000);
    assert_eq!(summed.top_processes[1].total_cpu_usage, 1500);
    let roots: Vec<u32> = plain.top_processes.iter().map(|n| n.pid).collect();
    assert_eq!(roots, vec![3, 1]);
}

#[test]
fn interfaces_are_rescanned_every_tenth_tick() {
    assert_eq!(INTERFACE_RESCAN_PERIOD, 10);
    let mut monitor = Monitor::new(false);
    let mut rescans = Vec::new();
    for tick in 1..=35u32 {
        if monitor.begin_tick() {
            rescans.push(tick);
        }
    }
    assert_eq!(rescans, vec![10, 20, 30]);
}

#[test]
fn an_odd_phase_falls_back_into_step() {
    let mut monitor = Monitor::new(false);
    monitor.phase = 200;
    assert!(monitor.begin_tick());
    assert_eq!(monitor.phase, 0);
    assert!(!monitor.begin_tick());
    assert_eq!(monitor.phase, 1);
}

#[test]
fn a_tick_yields_the_record_and_the_alerts() {
    let mut monitor = Monitor::new(true);
    assert!(!monitor.begin_tick());
    let snapshot = Snapshot {
        readings: readings(),
        cores: 2,
        processes: family(),
        components: vec![sensor("cpu", 40_000)],
    };
    let outcome = monitor.process(snapshot, 1_000, true);
    assert_eq!(outcome.stats.process_count, 3);
    assert_eq!(outcome.stats.cpu_usage, 42_500);
    assert_eq!(outcome.stats.components.len(), 1);
    assert_eq!(outcome.stats.top_processes.len(), 2);
    assert_eq!(
        outcome.alerts,
        vec![Alert::ProcessMemory { pid: 3, name: "proc-3".to_string(), memory: 300 }]
    );
    assert_eq!(monitor.phase, 1);
    assert!(monitor.aggregate);
    assert!(monitor.watchdog.notified_pids.contains(&3));
    assert_eq!(monitor.watchdog.cpu.count, 0);
}

#[test]
fn a_switched_off_tick_publishes_but_stays_silent() {
    let mut monitor = Monitor::new(false);
    let snapshot = Snapshot {
        readings: readings(),
        cores: 2,
        processes: family(),
        components: Vec::new(),
    };
    let outcome = monitor.process(snapshot, 1_000, false);
    assert_eq!(outcome.stats.top_processes.len(), 2);
    assert!(outcome.alerts.is_empty());
    assert!(monitor.watchdog.notified_pids.contains(&3));
}

#[test]
fn records_are_copied_whole() {
    let stats = snapshot_stats(readings(), vec![sensor("cpu", 1)], &family(), 2, true);
    let copy = stats.clone();
    assert_eq!(copy, stats);
    let tree = stats.top_processes[0].clone();
    assert_eq!(tree, stats.top_processes[0]);
    assert_eq!(tree.children.len(), 1);
    assert_eq!(tree.children[0].pid, 2);
    assert_eq!(tree.children[0].name, "proc-2");
}

#[test]
fn plain_records_hold_their_fields() {
    let app = StartupApp { name: "n".to_string(), path: "/bin/n".to_string(), enabled: true };
    assert_eq!(app.clone(), app);
    let port = PortInfo {
        pid: Some(4),
        process_name: "srv".to_string(),
        port: 8080,
        protocol: "TCP/UDP".to_string(),
        address: "0.0.0.0:8080".to_string(),
    };
    assert_eq!(port.clone().port, 8080);
}
