//! Assembling the record that is published for a tick.

use crate::forest::{
    build_forest, capped, is_forest_of, lemma_capped_add, sum_of, sum_totals, totals_of,
};
use crate::models::{ComponentInfo, ProcessInfo, SystemStats};
use crate::snapshot::{distinct_pids, ProcessTable};
use vstd::prelude::*;

verus! {

/// The bytes one network interface moved during a tick.
#[derive(Clone, Copy, Debug, PartialEq, Eq)]
pub struct InterfaceTraffic {
    pub transmitted: u64,
    pub received: u64,
}

/// The bytes sent by each interface, in order.
pub open spec fn sent(interfaces: Seq<InterfaceTraffic>) -> Seq<u64> {
    interfaces.map_values(|t: InterfaceTraffic| t.transmitted)
}

/// The bytes received by each interface, in order.
pub open spec fn received(interfaces: Seq<InterfaceTraffic>) -> Seq<u64> {
    interfaces.map_values(|t: InterfaceTraffic| t.received)
}

/// The bytes sent and received over all interfaces during a tick; each sum
/// stops at `u64::MAX`.
pub fn total_traffic(interfaces: &Vec<InterfaceTraffic>) -> (traffic: (u64, u64))
    ensures
        traffic.0 == capped(sum_of(sent(interfaces@))),
        traffic.1 == capped(sum_of(received(interfaces@))),
{
    let mut up: u64 = 0;
    let mut down: u64 = 0;
    let mut k: usize = 0;
    while k < interfaces.len()
        invariant
            k <= interfaces.len(),
            up == capped(sum_of(sent(interfaces@.take(k as int)))),
            down == capped(sum_of(received(interfaces@.take(k as int)))),
        decreases interfaces.len() - k,
    {
        proof {
            let before = interfaces@.take(k as int);
            let after = interfaces@.take(k + 1);
            assert(sent(after).drop_last() =~= sent(before));
            assert(received(after).drop_last() =~= received(before));
            lemma_capped_add(sum_of(sent(before)), interfaces@[k as int].transmitted);
            lemma_capped_add(sum_of(received(before)), interfaces@[k as int].received);
        }
        up = up.saturating_add(interfaces[k].transmitted);
        down = down.saturating_add(interfaces[k].received);
        k += 1;
    }
    assert(interfaces@.take(k as int) =~= interfaces@);
    (up, down)
}

/// The system-wide readings of one tick.
#[derive(Clone, Copy, Debug, PartialEq, Eq)]
pub struct Readings {
    /// System CPU load in thousandths of a percent.
    pub cpu_usage: u64,
    pub memory_used: u64,
    pub memory_total: u64,
    /// Bytes sent during the tick.
    pub network_up: u64,
    /// Bytes received during the tick.
    pub network_down: u64,
}

/// `stats` combines the readings, the sensors and the forest of a tick: the
/// readings and the sensors pass through, the disk figures are the capped
/// sums of the roots' disk aggregates.
pub open spec fn combines(
    stats: SystemStats,
    readings: Readings,
    components: Seq<ComponentInfo>,
    forest: Seq<ProcessInfo>,
    process_count: usize,
) -> bool {
    &&& stats.cpu_usage == readings.cpu_usage
    &&& stats.process_count == process_count
    &&& stats.memory_used == readings.memory_used
    &&& stats.memory_total == readings.memory_total
    &&& stats.network_up == readings.network_up
    &&& stats.network_down == readings.network_down
    &&& stats.disk_read == totals_of(forest).disk_read
    &&& stats.disk_write == totals_of(forest).disk_write
    &&& stats.gpu_usage is None
    &&& stats.components@ == components
    &&& stats.top_processes@ == forest
}

/// Combines the readings, the sensors and the forest of a tick into the
/// record to publish.
pub fn assemble_stats(
    readings: Readings,
    components: Vec<ComponentInfo>,
    forest: Vec<ProcessInfo>,
    process_count: usize,
) -> (stats: SystemStats)
    ensures
        combines(stats, readings, components@, forest@, process_count),
{
    let disk = sum_totals(&forest);
    SystemStats {
        cpu_usage: readings.cpu_usage,
        process_count,
        memory_used: readings.memory_used,
        memory_total: readings.memory_total,
        network_up: readings.network_up,
        network_down: readings.network_down,
        disk_read: disk.disk_read,
        disk_write: disk.disk_write,
        gpu_usage: None,
        components,
        top_processes: forest,
    }
}

/// The record to publish for a tick: the forest of `table` together with the
/// readings and the sensors.
pub fn snapshot_stats(
    readings: Readings,
    components: Vec<ComponentInfo>,
    table: &ProcessTable,
    cores: usize,
    aggregate: bool,
) -> (stats: SystemStats)
    ensures
        distinct_pids(table@),
        is_forest_of(stats.top_processes@, table@, cores, aggregate),
        combines(stats, readings, components@, stats.top_processes@, table@.len() as usize),
{
    let forest = build_forest(table, cores, aggregate);
    assemble_stats(readings, components, forest, table.len())
}

} // verus!
