//! One iteration of the monitoring loop, without the waiting and the I/O: the
//! caller reads the system, hands over what it read, and publishes and
//! notifies as it is told.

use crate::forest::is_forest_of;
use crate::models::{ComponentInfo, SystemStats};
use crate::snapshot::{distinct_pids, ProcessTable};
use crate::stats::{combines, snapshot_stats, Readings};
use crate::watchdog::{
    alerts_of_tick, initial_state, state_after_tick, Alert, Tick, WatchdogState,
};
use vstd::prelude::*;

verus! {

/// The list of network interfaces is read anew on every tenth tick; the
/// counters of the known interfaces are read on every tick.
pub const INTERFACE_RESCAN_PERIOD: u8 = 10;

/// Everything read from the system for one tick.
pub struct Snapshot {
    pub readings: Readings,
    /// The number of cores that the CPU readings of the processes add up over.
    pub cores: usize,
    pub processes: ProcessTable,
    pub components: Vec<ComponentInfo>,
}

/// What the caller is to do with a tick: publish `stats`, deliver `alerts`.
pub struct TickOutcome {
    pub stats: SystemStats,
    pub alerts: Vec<Alert>,
}

/// The state that the monitoring loop carries from tick to tick.
pub struct Monitor {
    /// The aggregation policy: whether a node's aggregates include its
    /// descendants.
    pub aggregate: bool,
    /// Ticks begun so far, counted modulo the rescan period.
    pub phase: u8,
    pub watchdog: WatchdogState,
}

/// The phase after one more tick has begun.
pub open spec fn phase_after(phase: u8) -> u8 {
    if phase >= INTERFACE_RESCAN_PERIOD - 1 {
        0
    } else {
        (phase + 1) as u8
    }
}

/// The phase after `ticks` more ticks have begun.
pub open spec fn phase_after_ticks(phase: u8, ticks: nat) -> u8
    decreases ticks,
{
    if ticks == 0 {
        phase
    } else {
        phase_after(phase_after_ticks(phase, (ticks - 1) as nat))
    }
}

/// Counted from the start of the loop, the phase is the number of ticks begun
/// modulo the period: the interfaces are rescanned on ticks 10, 20, 30, ...
pub proof fn law_rescan_every_tenth_tick(ticks: nat)
    ensures
        phase_after_ticks(0, ticks) == ticks % (INTERFACE_RESCAN_PERIOD as nat),
    decreases ticks,
{
    if ticks > 0 {
        law_rescan_every_tenth_tick((ticks - 1) as nat);
    }
}

impl Monitor {
    /// The state at the start of the loop.
    pub fn new(aggregate: bool) -> (monitor: Self)
        ensures
            monitor.aggregate == aggregate,
            monitor.phase == 0,
            monitor.watchdog@ == initial_state(),
    {
        Monitor { aggregate, phase: 0, watchdog: WatchdogState::new() }
    }

    /// Begins a tick and says whether the list of network interfaces is to be
    /// read anew before the counters are read.
    pub fn begin_tick(&mut self) -> (rescan: bool)
        ensures
            final(self).phase == phase_after(old(self).phase),
            rescan == (final(self).phase == 0),
            final(self).aggregate == old(self).aggregate,
            final(self).watchdog == old(self).watchdog,
    {
        if self.phase >= INTERFACE_RESCAN_PERIOD - 1 {
            self.phase = 0;
        } else {
            self.phase = self.phase + 1;
        }
        self.phase == 0
    }

    /// Turns what was read during a tick into the record to publish and the
    /// notifications to deliver, and advances the watchdog.
    pub fn process(&mut self, snapshot: Snapshot, now: u64, enabled: bool) -> (outcome: TickOutcome)
        ensures
            final(self).aggregate == old(self).aggregate,
            final(self).phase == old(self).phase,
            distinct_pids(snapshot.processes@),
            is_forest_of(
                outcome.stats.top_processes@,
                snapshot.processes@,
                snapshot.cores,
                old(self).aggregate,
            ),
            combines(
                outcome.stats,
                snapshot.readings,
                snapshot.components@,
                outcome.stats.top_processes@,
                snapshot.processes@.len() as usize,
            ),
            final(self).watchdog@ == state_after_tick(
                old(self).watchdog@,
                (Tick {
                    cpu_usage: snapshot.readings.cpu_usage,
                    memory_used: snapshot.readings.memory_used,
                    memory_total: snapshot.readings.memory_total,
                    samples: snapshot.processes@,
                    now,
                    enabled,
                }),
            ),
            outcome.alerts@ == alerts_of_tick(
                old(self).watchdog@,
                (Tick {
                    cpu_usage: snapshot.readings.cpu_usage,
                    memory_used: snapshot.readings.memory_used,
                    memory_total: snapshot.readings.memory_total,
                    samples: snapshot.processes@,
                    now,
                    enabled,
                }),
            ),
    {
        let Snapshot { readings, cores, processes, components } = snapshot;
        let stats = snapshot_stats(readings, components, &processes, cores, self.aggregate);
        let alerts = self.watchdog.evaluate(
            readings.cpu_usage,
            readings.memory_used,
            readings.memory_total,
            processes.samples(),
            now,
            enabled,
        );
        TickOutcome { stats, alerts }
    }
}

} // verus!
