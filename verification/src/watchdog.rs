//! The alert policy: sustained breaches of fixed thresholds become at most one
//! notification per cool-down window, separately for CPU and memory, and a
//! process that takes too large a share of memory is reported once.
//!
//! Times are milliseconds on a clock of the caller's choice; CPU figures are
//! thousandths of a percent.

use crate::snapshot::ProcessSample;
use std::collections::HashSet;
use vstd::prelude::*;

verus! {

/// CPU load above which a tick counts as a breach: 90 %.
pub const CPU_ALERT_THRESHOLD: u64 = 90_000;

/// Consecutive CPU breaches that make an alert fire.
pub const CPU_STREAK: u32 = 5;

/// Consecutive memory breaches that make an alert fire.
pub const MEMORY_STREAK: u32 = 3;

/// Least time between two notifications of one class: 60 seconds.
pub const COOLDOWN_MILLIS: u64 = 60_000;

/// What the monitor asks the notification layer to show.
#[derive(Clone, Debug, PartialEq, Eq)]
pub enum Alert {
    /// System CPU load stayed above the threshold.
    HighCpu,
    /// A process holds more than a quarter of the system's memory.
    ProcessMemory { pid: u32, name: String, memory: u64 },
    /// System memory use stayed above nine tenths of the total.
    HighMemory { used: u64, total: u64 },
}

/// The debounce state of one alert class.
#[derive(Clone, Copy, Debug, PartialEq, Eq)]
pub struct BreachTracker {
    /// Consecutive breaches that make the alert fire.
    pub streak: u32,
    /// Consecutive breaches seen since the last firing or calm tick.
    pub count: u32,
    /// When the last notification of this class became due.
    pub last_alert: Option<u64>,
}

/// No notification of the class became due during the cool-down window that
/// ends at `now`.
pub open spec fn cooled_down(last_alert: Option<u64>, now: u64) -> bool {
    match last_alert {
        None => true,
        Some(at) => now - at >= COOLDOWN_MILLIS,
    }
}

/// The alert fires on this tick: the count of consecutive breaches, this tick
/// included, reaches the streak.
pub open spec fn fires(tracker: BreachTracker, breach: bool) -> bool {
    (if breach {
        tracker.count + 1
    } else {
        0
    }) >= tracker.streak
}

/// A notification is due on this tick: the alert fires and the class has
/// cooled down.
pub open spec fn alert_due(tracker: BreachTracker, breach: bool, now: u64) -> bool {
    fires(tracker, breach) && cooled_down(tracker.last_alert, now)
}

/// The tracker after a tick. Firing resets the count whether or not a
/// notification is due; only a due notification moves the time stamp.
pub open spec fn tracker_after(tracker: BreachTracker, breach: bool, now: u64) -> BreachTracker {
    BreachTracker {
        streak: tracker.streak,
        count: if fires(tracker, breach) || !breach {
            0
        } else {
            (tracker.count + 1) as u32
        },
        last_alert: if alert_due(tracker, breach, now) {
            Some(now)
        } else {
            tracker.last_alert
        },
    }
}

impl BreachTracker {
    /// A calm tracker that has never alerted.
    pub fn new(streak: u32) -> (tracker: Self)
        ensures
            tracker == (BreachTracker { streak, count: 0, last_alert: None }),
    {
        BreachTracker { streak, count: 0, last_alert: None }
    }

    /// Takes in one tick and says whether a notification is due.
    pub fn observe(&mut self, breach: bool, now: u64) -> (due: bool)
        ensures
            due == alert_due(*old(self), breach, now),
            *final(self) == tracker_after(*old(self), breach, now),
    {
        let seen: u64 = if breach {
            self.count as u64 + 1
        } else {
            0
        };
        if seen >= self.streak as u64 {
            self.count = 0;
            let cooled = match self.last_alert {
                None => true,
                Some(at) => now >= at && now - at >= COOLDOWN_MILLIS,
            };
            if cooled {
                self.last_alert = Some(now);
            }
            cooled
        } else {
            self.count = seen as u32;
            false
        }
    }
}

/// The CPU load counts as a breach.
pub open spec fn cpu_breach(cpu_usage: u64) -> bool {
    cpu_usage > CPU_ALERT_THRESHOLD
}

/// Memory use counts as a breach: more than nine tenths of the total.
pub open spec fn memory_breach(used: u64, total: u64) -> bool {
    used * 10 > total * 9
}

/// A process holds more than a quarter of the system's memory.
pub open spec fn over_share(memory: u64, total: u64) -> bool {
    memory > total / 4
}

/// What one tick hands to the watchdog.
pub struct Tick {
    pub cpu_usage: u64,
    pub memory_used: u64,
    pub memory_total: u64,
    pub samples: Seq<ProcessSample>,
    pub now: u64,
    /// Whether notifications are switched on during this tick.
    pub enabled: bool,
}

/// The watchdog's state as the contracts see it.
pub struct WatchdogModel {
    pub cpu: BreachTracker,
    pub memory: BreachTracker,
    /// The pids already reported for their share of memory.
    pub notified: Set<u32>,
}

/// The watchdog's state. It lives as long as the monitoring loop.
pub struct WatchdogState {
    pub cpu: BreachTracker,
    pub memory: BreachTracker,
    /// The pids already reported for their share of memory. Never pruned.
    pub notified_pids: HashSet<u32>,
}

impl View for WatchdogState {
    type V = WatchdogModel;

    open spec fn view(&self) -> WatchdogModel {
        WatchdogModel { cpu: self.cpu, memory: self.memory, notified: self.notified_pids@ }
    }
}

/// Sample `i` is the first in this tick to put its pid over the share, and
/// the pid was not reported before.
pub open spec fn first_offence(
    notified: Set<u32>,
    samples: Seq<ProcessSample>,
    total: u64,
    i: int,
) -> bool {
    &&& over_share(samples[i].memory_usage, total)
    &&& !notified.contains(samples[i].pid)
    &&& forall|j: int|
        0 <= j < i ==> !((#[trigger] samples[j]).pid == samples[i].pid && over_share(
            samples[j].memory_usage,
            total,
        ))
}

/// The report on one process.
pub open spec fn process_alert(sample: ProcessSample) -> Alert {
    Alert::ProcessMemory { pid: sample.pid, name: sample.name, memory: sample.memory_usage }
}

/// The reports on the first offences among the samples before `limit`, in
/// table order.
pub open spec fn offenders(
    notified: Set<u32>,
    samples: Seq<ProcessSample>,
    total: u64,
    limit: int,
) -> Seq<Alert>
    decreases limit,
{
    if limit <= 0 {
        Seq::empty()
    } else if first_offence(notified, samples, total, limit - 1) {
        offenders(notified, samples, total, limit - 1).push(process_alert(samples[limit - 1]))
    } else {
        offenders(notified, samples, total, limit - 1)
    }
}

/// The reported pids after the samples before `limit` were looked at: every
/// pid over the share joins, none leaves.
pub open spec fn notified_after(
    notified: Set<u32>,
    samples: Seq<ProcessSample>,
    total: u64,
    limit: int,
) -> Set<u32> {
    Set::new(
        |pid: u32|
            notified.contains(pid) || exists|i: int|
                0 <= i < limit && i < samples.len() && (#[trigger] samples[i]).pid == pid
                    && over_share(samples[i].memory_usage, total),
    )
}

/// The state after a tick. It does not depend on whether notifications are
/// switched on.
pub open spec fn state_after_tick(state: WatchdogModel, tick: Tick) -> WatchdogModel {
    WatchdogModel {
        cpu: tracker_after(state.cpu, cpu_breach(tick.cpu_usage), tick.now),
        memory: tracker_after(
            state.memory,
            memory_breach(tick.memory_used, tick.memory_total),
            tick.now,
        ),
        notified: notified_after(
            state.notified,
            tick.samples,
            tick.memory_total,
            tick.samples.len() as int,
        ),
    }
}

/// The CPU alert of a tick, if one is due.
pub open spec fn cpu_alerts(state: WatchdogModel, tick: Tick) -> Seq<Alert> {
    if alert_due(state.cpu, cpu_breach(tick.cpu_usage), tick.now) {
        seq![Alert::HighCpu]
    } else {
        Seq::empty()
    }
}

/// The memory alert of a tick, if one is due.
pub open spec fn memory_alerts(state: WatchdogModel, tick: Tick) -> Seq<Alert> {
    if alert_due(state.memory, memory_breach(tick.memory_used, tick.memory_total), tick.now) {
        seq![Alert::HighMemory { used: tick.memory_used, total: tick.memory_total }]
    } else {
        Seq::empty()
    }
}

/// The notifications to deliver for a tick: none while notifications are
/// switched off; else the CPU alert, the process reports and the memory
/// alert, in this order.
pub open spec fn alerts_of_tick(state: WatchdogModel, tick: Tick) -> Seq<Alert> {
    if tick.enabled {
        cpu_alerts(state, tick) + offenders(
            state.notified,
            tick.samples,
            tick.memory_total,
            tick.samples.len() as int,
        ) + memory_alerts(state, tick)
    } else {
        Seq::empty()
    }
}

/// The state at the start of the monitoring loop: both classes calm, no
/// notification ever due, no pid reported.
pub open spec fn initial_state() -> WatchdogModel {
    WatchdogModel {
        cpu: BreachTracker { streak: CPU_STREAK, count: 0, last_alert: None },
        memory: BreachTracker { streak: MEMORY_STREAK, count: 0, last_alert: None },
        notified: Set::empty(),
    }
}

impl WatchdogState {
    /// The state at the start of the monitoring loop.
    pub fn new() -> (state: Self)
        ensures
            state@ == initial_state(),
    {
        WatchdogState {
            cpu: BreachTracker::new(CPU_STREAK),
            memory: BreachTracker::new(MEMORY_STREAK),
            notified_pids: HashSet::new(),
        }
    }

    /// Takes in one tick and returns the notifications to deliver.
    ///
    /// The state advances in the same way whether or not notifications are
    /// switched on; while they are off nothing is returned.
    pub fn evaluate(
        &mut self,
        cpu_usage: u64,
        memory_used: u64,
        memory_total: u64,
        samples: &Vec<ProcessSample>,
        now: u64,
        enabled: bool,
    ) -> (alerts: Vec<Alert>)
        ensures
            final(self)@ == state_after_tick(
                old(self)@,
                (Tick { cpu_usage, memory_used, memory_total, samples: samples@, now, enabled }),
            ),
            alerts@ == alerts_of_tick(
                old(self)@,
                (Tick { cpu_usage, memory_used, memory_total, samples: samples@, now, enabled }),
            ),
    {
        let ghost before = self@;
        let mut alerts: Vec<Alert> = Vec::new();

        let cpu_due = self.cpu.observe(cpu_usage > CPU_ALERT_THRESHOLD, now);
        if cpu_due && enabled {
            alerts.push(Alert::HighCpu);
        }
        let ghost head = alerts@;

        let share = memory_total / 4;
        let mut i: usize = 0;
        while i < samples.len()
            invariant
                i <= samples@.len(),
                share == memory_total / 4,
                self.cpu == tracker_after(before.cpu, cpu_breach(cpu_usage), now),
                self.memory == before.memory,
                self.notified_pids@ == notified_after(
                    before.notified,
                    samples@,
                    memory_total,
                    i as int,
                ),
                alerts@ == head + if enabled {
                    offenders(before.notified, samples@, memory_total, i as int)
                } else {
                    Seq::empty()
                },
            decreases samples@.len() - i,
        {
            let sample = &samples[i];
            let ghost seen = self.notified_pids@;
            if sample.memory_usage > share && !self.notified_pids.contains(&sample.pid) {
                assert(first_offence(before.notified, samples@, memory_total, i as int));
                if enabled {
                    alerts.push(
                        Alert::ProcessMemory {
                            pid: sample.pid,
                            name: sample.name.clone(),
                            memory: sample.memory_usage,
                        },
                    );
                }
                self.notified_pids.insert(sample.pid);
            } else {
                assert(!first_offence(before.notified, samples@, memory_total, i as int));
            }
            assert(self.notified_pids@ =~= notified_after(
                before.notified,
                samples@,
                memory_total,
                i + 1,
            ));
            i += 1;
        }

        let memory_due = self.memory.observe(
            memory_used as u128 * 10 > memory_total as u128 * 9,
            now,
        );
        if memory_due && enabled {
            alerts.push(Alert::HighMemory { used: memory_used, total: memory_total });
        }
        assert(before.notified =~= old(self)@.notified);
        alerts
    }
}

} // verus!
