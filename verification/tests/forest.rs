use actiowatch::forest::{build_forest, insert_ranked, normalize_cpu, sum_totals, Totals};
use actiowatch::lineage::accepts_edge;
use actiowatch::models::ProcessInfo;
use actiowatch::snapshot::{ProcessSample, ProcessTable};
use std::collections::{HashMap, HashSet};

fn sample(pid: u32, parent: Option<u32>, start_time: u64, cpu_usage: u64) -> ProcessSample {
    ProcessSample {
        pid,
        parent,
        start_time,
        name: format!("proc-{}", pid),
        cpu_usage,
        memory_usage: 1000 + pid as u64,
        disk_read: 10 * pid as u64,
        disk_write: 20 * pid as u64,
        thread_count: pid as u64 % 7,
    }
}

fn table_of(samples: Vec<ProcessSample>) -> ProcessTable {
    let mut table = ProcessTable::new();
    for s in samples {
        assert!(table.insert(s));
    }
    table
}

fn leaf(pid: u32, total_cpu_usage: u64) -> ProcessInfo {
    ProcessInfo {
        pid,
        name: String::new(),
        cpu_usage: total_cpu_usage,
        total_cpu_usage,
        memory_usage: 1,
        total_memory_usage: 2,
        disk_read: 3,
        disk_write: 4,
        total_disk_read: 5,
        total_disk_write: 6,
        thread_count: 0,
        children: Vec::new(),
    }
}

fn collect_pids(nodes: &[ProcessInfo], into: &mut Vec<u32>) {
    for node in nodes {
        into.push(node.pid);
        collect_pids(&node.children, into);
    }
}

fn walk_without_revisit(nodes: &[ProcessInfo], on_path: &mut HashSet<u32>) -> bool {
    for node in nodes {
        if !on_path.insert(node.pid) {
            return false;
        }
        if !walk_without_revisit(&node.children, on_path) {
            return false;
        }
        on_path.remove(&node.pid);
    }
    true
}

fn ranked_everywhere(nodes: &[ProcessInfo]) -> bool {
    nodes.windows(2).all(|w| w[0].total_cpu_usage >= w[1].total_cpu_usage)
        && nodes.iter().all(|n| ranked_everywhere(&n.children))
}

fn busy_table() -> ProcessTable {
    table_of(vec![
        sample(1, None, 100, 4_000),
        sample(10, Some(1), 110, 8_000),
        sample(11, Some(1), 120, 40_000),
        sample(12, Some(1), 120, 8_000),
        sample(20, Some(10), 130, 1_000),
        sample(21, Some(10), 131, 2_000),
        sample(30, Some(999), 50, 12_000),
        sample(2, None, 0, 9_000),
        sample(40, Some(2), 0, 3_000),
        sample(41, Some(2), 7, 3_000),
        sample(50, Some(11), 90, 16_000),
    ])
}

#[test]
fn cpu_reading_is_divided_by_core_count() {
    assert_eq!(normalize_cpu(200_000, 4), 50_000);
    assert_eq!(normalize_cpu(200, 4), 50);
    assert_eq!(normalize_cpu(100_000, 1), 100_000);
    assert_eq!(normalize_cpu(7, 2), 3);
    assert_eq!(normalize_cpu(0, 8), 0);
}

#[test]
fn a_raw_reading_of_200_on_four_cores_shows_50() {
    let raw = (200.0f32 * 1000.0).round() as u64;
    let shown = normalize_cpu(raw, 4) as f32 / 1000.0;
    assert_eq!(shown, 50.0);
    let table = table_of(vec![sample(1, None, 10, raw)]);
    let forest = build_forest(&table, 4, false);
    assert_eq!(forest[0].cpu_usage as f32 / 1000.0, 50.0);
    assert_eq!(forest[0].total_cpu_usage as f32 / 1000.0, 50.0);
}

#[test]
fn cpu_reading_is_left_alone_without_cores() {
    assert_eq!(normalize_cpu(12_345, 0), 12_345);
}

#[test]
fn start_time_rule() {
    assert!(accepts_edge(10, 10));
    assert!(accepts_edge(10, 11));
    assert!(!accepts_edge(11, 10));
    assert!(!accepts_edge(0, 0));
    assert!(accepts_edge(0, 5));
    assert!(!accepts_edge(5, 0));
}

#[test]
fn child_hangs_below_its_parent() {
    let table = table_of(vec![sample(1, None, 10, 0), sample(2, Some(1), 20, 0)]);
    let forest = build_forest(&table, 1, false);
    assert_eq!(forest.len(), 1);
    assert_eq!(forest[0].pid, 1);
    assert_eq!(forest[0].children.len(), 1);
    assert_eq!(forest[0].children[0].pid, 2);
    assert!(forest[0].children[0].children.is_empty());
}

#[test]
fn node_shows_its_sample() {
    let table = table_of(vec![sample(5, None, 10, 360_000)]);
    let forest = build_forest(&table, 8, false);
    assert_eq!(
        forest,
        vec![ProcessInfo {
            pid: 5,
            name: "proc-5".to_string(),
            cpu_usage: 45_000,
            total_cpu_usage: 45_000,
            memory_usage: 1005,
            total_memory_usage: 1005,
            disk_read: 50,
            disk_write: 100,
            total_disk_read: 50,
            total_disk_write: 100,
            thread_count: 5,
            children: vec![],
        }]
    );
}

#[test]
fn empty_table_gives_empty_forest() {
    let table = ProcessTable::new();
    assert_eq!(table.len(), 0);
    assert!(build_forest(&table, 4, true).is_empty());
}

#[test]
fn every_pid_appears_exactly_once() {
    let table = busy_table();
    for aggregate in [false, true] {
        let forest = build_forest(&table, 4, aggregate);
        let mut found = Vec::new();
        collect_pids(&forest, &mut found);
        found.sort();
        let mut given: Vec<u32> = table.samples().iter().map(|s| s.pid).collect();
        given.sort();
        assert_eq!(found, given);
    }
}

#[test]
fn no_node_is_reachable_from_itself() {
    let table = busy_table();
    let forest = build_forest(&table, 4, true);
    assert!(walk_without_revisit(&forest, &mut HashSet::new()));
}

#[test]
fn child_older_than_parent_is_a_root() {
    let table = table_of(vec![sample(1, None, 100, 0), sample(2, Some(1), 99, 0)]);
    let forest = build_forest(&table, 1, false);
    let roots: Vec<u32> = forest.iter().map(|n| n.pid).collect();
    assert_eq!(roots, vec![1, 2]);
    assert!(forest.iter().all(|n| n.children.is_empty()));
}

#[test]
fn unknown_start_times_are_never_linked() {
    let table = table_of(vec![sample(1, None, 0, 0), sample(2, Some(1), 0, 0)]);
    let forest = build_forest(&table, 1, false);
    let roots: Vec<u32> = forest.iter().map(|n| n.pid).collect();
    assert_eq!(roots, vec![1, 2]);
    assert!(forest.iter().all(|n| n.children.is_empty()));
}

#[test]
fn unknown_parent_start_time_still_links_a_later_child() {
    let table = table_of(vec![sample(1, None, 0, 0), sample(2, Some(1), 5, 0)]);
    let forest = build_forest(&table, 1, false);
    assert_eq!(forest.len(), 1);
    assert_eq!(forest[0].children.len(), 1);
    assert_eq!(forest[0].children[0].pid, 2);
}

#[test]
fn same_second_start_links() {
    let table = table_of(vec![sample(1, None, 7, 0), sample(2, Some(1), 7, 0)]);
    let forest = build_forest(&table, 1, false);
    assert_eq!(forest.len(), 1);
    assert_eq!(forest[0].children[0].pid, 2);
}

#[test]
fn missing_parent_makes_a_root() {
    let table = table_of(vec![sample(7, Some(4242), 10, 0)]);
    let forest = build_forest(&table, 1, false);
    assert_eq!(forest.len(), 1);
    assert_eq!(forest[0].pid, 7);
}

#[test]
fn parent_listed_after_child_is_found() {
    let table = table_of(vec![sample(2, Some(1), 20, 0), sample(1, None, 10, 0)]);
    let forest = build_forest(&table, 1, false);
    assert_eq!(forest.len(), 1);
    assert_eq!(forest[0].pid, 1);
    assert_eq!(forest[0].children[0].pid, 2);
}

#[test]
fn busy_forest_has_the_expected_shape() {
    let forest = build_forest(&busy_table(), 4, false);
    let roots: Vec<u32> = forest.iter().map(|n| n.pid).collect();
    assert_eq!(roots, vec![50, 30, 2, 1, 40]);
    let one = forest.iter().find(|n| n.pid == 1).unwrap();
    let kids: Vec<u32> = one.children.iter().map(|n| n.pid).collect();
    assert_eq!(kids, vec![11, 10, 12]);
    let ten = &one.children[1];
    let grandkids: Vec<u32> = ten.children.iter().map(|n| n.pid).collect();
    assert_eq!(grandkids, vec![21, 20]);
    let two = forest.iter().find(|n| n.pid == 2).unwrap();
    let kids: Vec<u32> = two.children.iter().map(|n| n.pid).collect();
    assert_eq!(kids, vec![41]);
}

#[test]
fn siblings_are_ranked_by_cpu_aggregate() {
    let table = busy_table();
    assert!(ranked_everywhere(&build_forest(&table, 4, false)));
    assert!(ranked_everywhere(&build_forest(&table, 4, true)));
}

#[test]
fn equal_aggregates_keep_table_order() {
    let table = table_of(vec![
        sample(9, None, 1, 5_000),
        sample(3, None, 1, 5_000),
        sample(7, None, 1, 9_000),
        sample(5, None, 1, 5_000),
    ]);
    let forest = build_forest(&table, 1, false);
    let roots: Vec<u32> = forest.iter().map(|n| n.pid).collect();
    assert_eq!(roots, vec![7, 9, 3, 5]);
}

#[test]
fn aggregates_are_own_figures_when_aggregation_is_off() {
    let forest = build_forest(&busy_table(), 1, false);
    let one = forest.iter().find(|n| n.pid == 1).unwrap();
    assert_eq!(one.total_cpu_usage, 4_000);
    assert_eq!(one.total_memory_usage, 1001);
    assert_eq!(one.total_disk_read, 10);
    assert_eq!(one.total_disk_write, 20);
}

#[test]
fn aggregates_include_descendants_when_aggregation_is_on() {
    let forest = build_forest(&busy_table(), 1, true);
    let one = forest.iter().find(|n| n.pid == 1).unwrap();
    // 1 with children 10, 11, 12 and grandchildren 20, 21
    assert_eq!(one.cpu_usage, 4_000);
    assert_eq!(one.total_cpu_usage, 4_000 + 8_000 + 40_000 + 8_000 + 1_000 + 2_000);
    assert_eq!(one.total_memory_usage, 1001 + 1010 + 1011 + 1012 + 1020 + 1021);
    assert_eq!(one.total_disk_read, 10 * (1 + 10 + 11 + 12 + 20 + 21));
    assert_eq!(one.total_disk_write, 20 * (1 + 10 + 11 + 12 + 20 + 21));
    let kids: Vec<u32> = one.children.iter().map(|n| n.pid).collect();
    assert_eq!(kids, vec![11, 10, 12]);
    assert_eq!(one.children[1].total_cpu_usage, 11_000);
}

#[test]
fn aggregation_changes_the_rank_order() {
    let table = table_of(vec![
        sample(1, None, 10, 1_000),
        sample(2, None, 10, 5_000),
        sample(3, Some(1), 20, 9_000),
    ]);
    let plain: Vec<u32> = build_forest(&table, 1, false).iter().map(|n| n.pid).collect();
    let summed: Vec<u32> = build_forest(&table, 1, true).iter().map(|n| n.pid).collect();
    assert_eq!(plain, vec![2, 1]);
    assert_eq!(summed, vec![1, 2]);
}

#[test]
fn aggregates_stop_at_the_largest_value() {
    let mut parent = sample(1, None, 10, 0);
    parent.memory_usage = u64::MAX - 5;
    let mut child = sample(2, Some(1), 20, 0);
    child.memory_usage = 10;
    let forest = build_forest(&table_of(vec![parent, child]), 1, true);
    assert_eq!(forest[0].total_memory_usage, u64::MAX);
    assert_eq!(forest[0].children[0].total_memory_usage, 10);
}

#[test]
fn processes_on_a_cycle_of_accepted_links_are_left_out() {
    let table = table_of(vec![
        sample(1, Some(2), 5, 0),
        sample(2, Some(1), 5, 0),
        sample(3, None, 1, 0),
    ]);
    let forest = build_forest(&table, 1, false);
    let mut found = Vec::new();
    collect_pids(&forest, &mut found);
    assert_eq!(found, vec![3]);
}

#[test]
fn process_naming_itself_as_parent_is_left_out() {
    let table = table_of(vec![sample(1, Some(1), 5, 0), sample(2, None, 1, 0)]);
    let forest = build_forest(&table, 1, false);
    let mut found = Vec::new();
    collect_pids(&forest, &mut found);
    assert_eq!(found, vec![2]);
}

#[test]
fn table_keeps_one_sample_per_pid() {
    let mut table = ProcessTable::new();
    assert!(table.insert(sample(1, None, 10, 100)));
    assert!(table.insert(sample(2, None, 10, 200)));
    assert!(!table.insert(sample(1, None, 11, 300)));
    assert_eq!(table.len(), 2);
    assert_eq!(table.samples()[0].cpu_usage, 300);
    assert_eq!(table.samples()[0].start_time, 11);
    assert_eq!(table.samples()[1].pid, 2);
    assert_eq!(table.position(2), Some(1));
    assert_eq!(table.position(3), None);
    assert_eq!(table.get(1).map(|s| s.cpu_usage), Some(300));
    assert!(table.get(9).is_none());
}

#[test]
fn ranked_insertion_goes_behind_equals() {
    let mut nodes = vec![leaf(1, 9), leaf(2, 5), leaf(3, 5), leaf(4, 1)];
    assert_eq!(insert_ranked(&mut nodes, leaf(5, 5)), 3);
    assert_eq!(insert_ranked(&mut nodes, leaf(6, 10)), 0);
    assert_eq!(insert_ranked(&mut nodes, leaf(7, 0)), 6);
    let order: Vec<u32> = nodes.iter().map(|n| n.pid).collect();
    assert_eq!(order, vec![6, 1, 2, 3, 5, 4, 7]);
    let mut empty = Vec::new();
    assert_eq!(insert_ranked(&mut empty, leaf(1, 1)), 0);
}

#[test]
fn totals_add_up_the_aggregates() {
    let nodes = vec![leaf(1, 9), leaf(2, 5), leaf(3, 1)];
    assert_eq!(
        sum_totals(&nodes),
        Totals { cpu: 15, memory: 6, disk_read: 15, disk_write: 18 }
    );
    assert_eq!(
        sum_totals(&Vec::new()),
        Totals { cpu: 0, memory: 0, disk_read: 0, disk_write: 0 }
    );
    let mut big = leaf(4, u64::MAX);
    big.total_disk_write = u64::MAX - 1;
    let nodes = vec![leaf(1, 9), big];
    let totals = sum_totals(&nodes);
    assert_eq!(totals.cpu, u64::MAX);
    assert_eq!(totals.disk_write, u64::MAX);
    assert_eq!(totals.memory, 4);
}

fn direct_node(
    pid: u32,
    samples: &[ProcessSample],
    by_pid: &HashMap<u32, usize>,
    children: &HashMap<u32, Vec<u32>>,
    cores: usize,
    aggregate: bool,
) -> ProcessInfo {
    let sample = &samples[by_pid[&pid]];
    let cpu = if cores == 0 { sample.cpu_usage } else { sample.cpu_usage / cores as u64 };
    let mut node = ProcessInfo {
        pid,
        name: sample.name.clone(),
        cpu_usage: cpu,
        total_cpu_usage: cpu,
        memory_usage: sample.memory_usage,
        total_memory_usage: sample.memory_usage,
        disk_read: sample.disk_read,
        disk_write: sample.disk_write,
        total_disk_read: sample.disk_read,
        total_disk_write: sample.disk_write,
        thread_count: sample.thread_count,
        children: Vec::new(),
    };
    for child in children.get(&pid).into_iter().flatten() {
        node.children.push(direct_node(*child, samples, by_pid, children, cores, aggregate));
    }
    if aggregate {
        for child in &node.children {
            node.total_cpu_usage = node.total_cpu_usage.saturating_add(child.total_cpu_usage);
            node.total_memory_usage =
                node.total_memory_usage.saturating_add(child.total_memory_usage);
            node.total_disk_read = node.total_disk_read.saturating_add(child.total_disk_read);
            node.total_disk_write = node.total_disk_write.saturating_add(child.total_disk_write);
        }
    }
    node.children.sort_by(|a, b| b.total_cpu_usage.cmp(&a.total_cpu_usage));
    node
}

fn direct_forest(samples: &[ProcessSample], cores: usize, aggregate: bool) -> Vec<ProcessInfo> {
    let by_pid: HashMap<u32, usize> =
        samples.iter().enumerate().map(|(at, s)| (s.pid, at)).collect();
    let mut children: HashMap<u32, Vec<u32>> = HashMap::new();
    let mut roots = Vec::new();
    for s in samples {
        let accepted = s.parent.and_then(|parent| by_pid.get(&parent)).filter(|at| {
            let parent_start = samples[**at].start_time;
            s.start_time >= parent_start && !(s.start_time == 0 && parent_start == 0)
        });
        match accepted {
            Some(at) => children.entry(samples[*at].pid).or_default().push(s.pid),
            None => roots.push(s.pid),
        }
    }
    let mut forest: Vec<ProcessInfo> = roots
        .into_iter()
        .map(|pid| direct_node(pid, samples, &by_pid, &children, cores, aggregate))
        .collect();
    forest.sort_by(|a, b| b.total_cpu_usage.cmp(&a.total_cpu_usage));
    forest
}

#[test]
fn forest_agrees_with_a_direct_construction() {
    let mut seed: u64 = 0x2545F4914F6CDD1D;
    let mut next = move |bound: u64| {
        seed ^= seed << 13;
        seed ^= seed >> 7;
        seed ^= seed << 17;
        seed % bound
    };
    for round in 0..300 {
        let count = 1 + next(40) as u32;
        let mut samples = Vec::new();
        for pid in 1..=count {
            let parent = match next(4) {
                0 => None,
                1 => Some(1000 + next(5) as u32),
                _ => Some(1 + next(count as u64) as u32),
            };
            let mut s = sample(pid, parent, next(6), next(8) * 1000);
            if round % 50 == 0 {
                s.memory_usage = u64::MAX - next(3);
            }
            samples.push(s);
        }
        let table = table_of(samples.clone());
        for (cores, aggregate) in [(1, false), (4, true), (0, true)] {
            assert_eq!(
                build_forest(&table, cores, aggregate),
                direct_forest(&samples, cores, aggregate),
                "round {}",
                round
            );
        }
    }
}
