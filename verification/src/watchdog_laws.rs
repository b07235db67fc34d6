//! What holds of the alert policy over any run of ticks.

use crate::snapshot::ProcessSample;
use crate::watchdog::{
    alert_due, alerts_of_tick, cpu_alerts, cpu_breach, first_offence, memory_alerts,
    initial_state, memory_breach, offenders, process_alert, state_after_tick, tracker_after, Alert,
    BreachTracker, Tick, WatchdogModel, COOLDOWN_MILLIS,
};
use vstd::prelude::*;

verus! {

/// What one tick tells a tracker.
pub struct Observation {
    pub breach: bool,
    pub now: u64,
}

/// The tracker after a run of observations.
pub open spec fn tracker_run(tracker: BreachTracker, run: Seq<Observation>) -> BreachTracker
    decreases run.len(),
{
    if run.len() == 0 {
        tracker
    } else {
        tracker_after(tracker_run(tracker, run.drop_last()), run.last().breach, run.last().now)
    }
}

/// A notification is due on observation `k` of the run.
pub open spec fn due_at(tracker: BreachTracker, run: Seq<Observation>, k: int) -> bool {
    alert_due(tracker_run(tracker, run.take(k)), run[k].breach, run[k].now)
}

/// How many notifications become due during the run.
pub open spec fn due_count(tracker: BreachTracker, run: Seq<Observation>) -> nat
    decreases run.len(),
{
    if run.len() == 0 {
        0
    } else {
        due_count(tracker, run.drop_last()) + if due_at(tracker, run, run.len() - 1) {
            1nat
        } else {
            0nat
        }
    }
}

/// A run never changes the streak a tracker was made with.
proof fn lemma_streak_kept(tracker: BreachTracker, run: Seq<Observation>)
    ensures
        tracker_run(tracker, run).streak == tracker.streak,
    decreases run.len(),
{
    if run.len() > 0 {
        lemma_streak_kept(tracker, run.drop_last());
    }
}

/// After a notification became due on observation `a`, the time stamp of the
/// tracker never lies before that observation.
proof fn lemma_stamp_after_due(tracker: BreachTracker, run: Seq<Observation>, a: int, m: int)
    requires
        0 <= a < m <= run.len(),
        due_at(tracker, run, a),
    ensures
        tracker_run(tracker, run.take(m)).last_alert matches Some(at) && at >= run[a].now,
    decreases m,
{
    let upto = run.take(m);
    assert(upto.drop_last() =~= run.take(m - 1));
    assert(upto.last() == run[m - 1]);
    if m - 1 > a {
        lemma_stamp_after_due(tracker, run, a, m - 1);
    }
}

/// Two notifications of one class lie at least a cool-down window apart,
/// however the ticks are timed.
pub proof fn law_alerts_spaced(tracker: BreachTracker, run: Seq<Observation>, a: int, b: int)
    requires
        0 <= a < b < run.len(),
        due_at(tracker, run, a),
        due_at(tracker, run, b),
    ensures
        run[b].now - run[a].now >= COOLDOWN_MILLIS,
{
    lemma_stamp_after_due(tracker, run, a, b);
}

/// While `count` notifications became due during a run whose times lie
/// between `lo` and `hi`, the last of them became due no earlier than
/// `count - 1` windows after `lo`.
proof fn lemma_stamp_counts(tracker: BreachTracker, run: Seq<Observation>, lo: u64, hi: u64)
    requires
        forall|k: int| 0 <= k < run.len() ==> lo <= (#[trigger] run[k]).now <= hi,
    ensures
        due_count(tracker, run) > 0 ==> (tracker_run(tracker, run).last_alert matches Some(at)
            && lo + (due_count(tracker, run) - 1) * COOLDOWN_MILLIS <= at <= hi),
    decreases run.len(),
{
    if run.len() > 0 {
        let shorter = run.drop_last();
        lemma_stamp_counts(tracker, shorter, lo, hi);
        assert(run.take(run.len() - 1) =~= shorter);
        let before = due_count(tracker, shorter);
        if due_at(tracker, run, run.len() - 1) && before > 0 {
            assert((before - 1) * COOLDOWN_MILLIS + COOLDOWN_MILLIS == before * COOLDOWN_MILLIS)
                by (nonlinear_arith);
        }
    }
}

/// Debounce as a rate limit: during a run whose times span `hi - lo`, at most
/// one notification per full cool-down window becomes due, and one more.
pub proof fn law_due_count_bounded(tracker: BreachTracker, run: Seq<Observation>, lo: u64, hi: u64)
    requires
        forall|k: int| 0 <= k < run.len() ==> lo <= (#[trigger] run[k]).now <= hi,
    ensures
        due_count(tracker, run) > 0 ==> (due_count(tracker, run) - 1) * COOLDOWN_MILLIS <= hi - lo,
{
    lemma_stamp_counts(tracker, run, lo, hi);
}

/// The count of a tracker that started calm never exceeds the number of
/// observations, and the observations it counts are breaches.
proof fn lemma_count_is_recent_breaches(tracker: BreachTracker, run: Seq<Observation>)
    requires
        tracker.count == 0,
    ensures
        tracker_run(tracker, run).count <= run.len(),
        forall|j: int|
            run.len() - tracker_run(tracker, run).count <= j < run.len() ==> (
            #[trigger] run[j]).breach,
    decreases run.len(),
{
    if run.len() > 0 {
        let shorter = run.drop_last();
        lemma_count_is_recent_breaches(tracker, shorter);
        assert forall|j: int|
            run.len() - tracker_run(tracker, run).count <= j < run.len() implies (
        #[trigger] run[j]).breach by {
            if j < run.len() - 1 {
                assert(shorter[j] == run[j]);
            }
        }
    }
}

/// A notification becomes due only at the end of a full streak: on a tracker
/// that started calm, the observation that makes it due and the `streak - 1`
/// before it are all breaches.
pub proof fn law_alert_needs_streak(tracker: BreachTracker, run: Seq<Observation>, k: int)
    requires
        tracker.count == 0,
        tracker.streak >= 1,
        0 <= k < run.len(),
        due_at(tracker, run, k),
    ensures
        k + 1 >= tracker.streak,
        forall|j: int| k - tracker.streak < j <= k ==> (#[trigger] run[j]).breach,
{
    let before = run.take(k);
    lemma_count_is_recent_breaches(tracker, before);
    lemma_streak_kept(tracker, before);
    assert forall|j: int| k - tracker.streak < j <= k implies (#[trigger] run[j]).breach by {
        if j < k {
            assert(before[j] == run[j]);
        }
    }
}

/// The state after a run of ticks.
pub open spec fn state_after(state: WatchdogModel, ticks: Seq<Tick>) -> WatchdogModel
    decreases ticks.len(),
{
    if ticks.len() == 0 {
        state
    } else {
        state_after_tick(state_after(state, ticks.drop_last()), ticks.last())
    }
}

/// What the ticks tell the CPU tracker.
pub open spec fn cpu_observations(ticks: Seq<Tick>) -> Seq<Observation> {
    ticks.map_values(|t: Tick| Observation { breach: cpu_breach(t.cpu_usage), now: t.now })
}

/// What the ticks tell the memory tracker.
pub open spec fn memory_observations(ticks: Seq<Tick>) -> Seq<Observation> {
    ticks.map_values(
        |t: Tick| Observation { breach: memory_breach(t.memory_used, t.memory_total), now: t.now },
    )
}

/// The two alert classes run independently: each tracker of the watchdog sees
/// its own observations and nothing else.
pub proof fn law_classes_independent(state: WatchdogModel, ticks: Seq<Tick>)
    ensures
        state_after(state, ticks).cpu == tracker_run(state.cpu, cpu_observations(ticks)),
        state_after(state, ticks).memory == tracker_run(
            state.memory,
            memory_observations(ticks),
        ),
    decreases ticks.len(),
{
    if ticks.len() > 0 {
        law_classes_independent(state, ticks.drop_last());
        assert(cpu_observations(ticks).drop_last() =~= cpu_observations(ticks.drop_last()));
        assert(memory_observations(ticks).drop_last() =~= memory_observations(
            ticks.drop_last(),
        ));
    }
}

/// The observations of the first ticks are the first observations.
proof fn lemma_observations_of_prefix(ticks: Seq<Tick>, k: int)
    requires
        0 <= k <= ticks.len(),
    ensures
        cpu_observations(ticks.take(k)) == cpu_observations(ticks).take(k),
        memory_observations(ticks.take(k)) == memory_observations(ticks).take(k),
{
    assert(cpu_observations(ticks.take(k)) =~= cpu_observations(ticks).take(k));
    assert(memory_observations(ticks.take(k)) =~= memory_observations(ticks).take(k));
}

/// A CPU alert is due on tick `k` of the run.
pub open spec fn cpu_alert_at(state: WatchdogModel, ticks: Seq<Tick>, k: int) -> bool {
    cpu_alerts(state_after(state, ticks.take(k)), ticks[k]).len() > 0
}

/// A memory alert is due on tick `k` of the run.
pub open spec fn memory_alert_at(state: WatchdogModel, ticks: Seq<Tick>, k: int) -> bool {
    memory_alerts(state_after(state, ticks.take(k)), ticks[k]).len() > 0
}

/// Two CPU alerts lie at least a cool-down window apart.
pub proof fn law_cpu_alerts_spaced(state: WatchdogModel, ticks: Seq<Tick>, a: int, b: int)
    requires
        0 <= a < b < ticks.len(),
        cpu_alert_at(state, ticks, a),
        cpu_alert_at(state, ticks, b),
    ensures
        ticks[b].now - ticks[a].now >= COOLDOWN_MILLIS,
{
    law_classes_independent(state, ticks.take(a));
    law_classes_independent(state, ticks.take(b));
    lemma_observations_of_prefix(ticks, a);
    lemma_observations_of_prefix(ticks, b);
    law_alerts_spaced(state.cpu, cpu_observations(ticks), a, b);
}

/// Two memory alerts lie at least a cool-down window apart.
pub proof fn law_memory_alerts_spaced(state: WatchdogModel, ticks: Seq<Tick>, a: int, b: int)
    requires
        0 <= a < b < ticks.len(),
        memory_alert_at(state, ticks, a),
        memory_alert_at(state, ticks, b),
    ensures
        ticks[b].now - ticks[a].now >= COOLDOWN_MILLIS,
{
    law_classes_independent(state, ticks.take(a));
    law_classes_independent(state, ticks.take(b));
    lemma_observations_of_prefix(ticks, a);
    lemma_observations_of_prefix(ticks, b);
    law_alerts_spaced(state.memory, memory_observations(ticks), a, b);
}

/// From the start of the loop, a CPU alert is due only on a tick that
/// completes five breaches in a row, and a memory alert only on one that
/// completes three.
pub proof fn law_alerts_need_streaks(ticks: Seq<Tick>, k: int)
    requires
        0 <= k < ticks.len(),
    ensures
        cpu_alert_at(initial_state(), ticks, k) ==> k >= 4 && forall|j: int|
            k - 5 < j <= k ==> cpu_breach((#[trigger] ticks[j]).cpu_usage),
        memory_alert_at(initial_state(), ticks, k) ==> k >= 2 && forall|j: int|
            k - 3 < j <= k ==> memory_breach(
                (#[trigger] ticks[j]).memory_used,
                ticks[j].memory_total,
            ),
{
    let state = initial_state();
    law_classes_independent(state, ticks.take(k));
    lemma_observations_of_prefix(ticks, k);
    if cpu_alert_at(state, ticks, k) {
        law_alert_needs_streak(state.cpu, cpu_observations(ticks), k);
        assert forall|j: int| k - 5 < j <= k implies cpu_breach(
            (#[trigger] ticks[j]).cpu_usage,
        ) by {
            assert(cpu_observations(ticks)[j].breach);
        }
    }
    if memory_alert_at(state, ticks, k) {
        law_alert_needs_streak(state.memory, memory_observations(ticks), k);
        assert forall|j: int| k - 3 < j <= k implies memory_breach(
            (#[trigger] ticks[j]).memory_used,
            ticks[j].memory_total,
        ) by {
            assert(memory_observations(ticks)[j].breach);
        }
    }
}

/// Two ticks that differ at most in whether notifications are switched on.
pub open spec fn same_readings(a: Tick, b: Tick) -> bool {
    &&& a.cpu_usage == b.cpu_usage
    &&& a.memory_used == b.memory_used
    &&& a.memory_total == b.memory_total
    &&& a.samples == b.samples
    &&& a.now == b.now
}

/// Switching notifications off and on does not reset or freeze anything: two
/// runs with the same readings end in the same state, whatever the switch
/// was during either.
pub proof fn law_switch_leaves_state(state: WatchdogModel, a: Seq<Tick>, b: Seq<Tick>)
    requires
        a.len() == b.len(),
        forall|k: int| 0 <= k < a.len() ==> same_readings(#[trigger] a[k], b[k]),
    ensures
        state_after(state, a) == state_after(state, b),
    decreases a.len(),
{
    if a.len() > 0 {
        assert(same_readings(a[a.len() - 1], b[a.len() - 1]));
        assert forall|k: int| 0 <= k < a.drop_last().len() implies same_readings(
            #[trigger] a.drop_last()[k],
            b.drop_last()[k],
        ) by {
            assert(same_readings(a[k], b[k]));
        }
        law_switch_leaves_state(state, a.drop_last(), b.drop_last());
    }
}

/// While notifications are switched off nothing is delivered; once they are
/// switched on again, what is delivered is what would have been delivered had
/// they never been off.
pub proof fn law_switch_only_gates_delivery(
    state: WatchdogModel,
    a: Seq<Tick>,
    b: Seq<Tick>,
    next: Tick,
)
    requires
        a.len() == b.len(),
        forall|k: int| 0 <= k < a.len() ==> same_readings(#[trigger] a[k], b[k]),
    ensures
        !next.enabled ==> alerts_of_tick(state_after(state, a), next) == Seq::<Alert>::empty(),
        alerts_of_tick(state_after(state, a), next) == alerts_of_tick(state_after(state, b), next),
{
    law_switch_leaves_state(state, a, b);
}

/// The pid that a process report names.
pub open spec fn reported_pid(alert: Alert) -> Option<u32> {
    match alert {
        Alert::ProcessMemory { pid, .. } => Some(pid),
        _ => None,
    }
}

/// The process reports of a tick are the reports on its first offences, and
/// name no pid twice.
pub proof fn law_reports_are_first_offences(
    notified: Set<u32>,
    samples: Seq<ProcessSample>,
    total: u64,
    limit: int,
)
    requires
        0 <= limit <= samples.len(),
    ensures
        forall|k: int|
            0 <= k < offenders(notified, samples, total, limit).len() ==> exists|i: int|
                0 <= i < limit && first_offence(notified, samples, total, i) && (
                #[trigger] offenders(notified, samples, total, limit)[k]) == process_alert(
                    samples[i],
                ),
        forall|i: int|
            0 <= i < limit && first_offence(notified, samples, total, i) ==> offenders(
                notified,
                samples,
                total,
                limit,
            ).contains(process_alert(#[trigger] samples[i])),
        forall|a: int, b: int|
            0 <= a < b < offenders(notified, samples, total, limit).len() ==> reported_pid(
                offenders(notified, samples, total, limit)[a],
            ) != reported_pid(offenders(notified, samples, total, limit)[b]),
    decreases limit,
{
    if limit > 0 {
        let all = offenders(notified, samples, total, limit);
        let fewer = offenders(notified, samples, total, limit - 1);
        law_reports_are_first_offences(notified, samples, total, limit - 1);
        assert forall|k: int| 0 <= k < all.len() implies exists|i: int|
            0 <= i < limit && first_offence(notified, samples, total, i) && (#[trigger] all[k])
                == process_alert(samples[i]) by {
            if k < fewer.len() {
                assert(all[k] == fewer[k]);
                let i = choose|i: int|
                    0 <= i < limit - 1 && first_offence(notified, samples, total, i) && fewer[k]
                        == process_alert(samples[i]);
                assert(0 <= i < limit);
            } else {
                assert(all[k] == process_alert(samples[limit - 1]));
            }
        }
        assert forall|i: int|
            0 <= i < limit && first_offence(notified, samples, total, i) implies all.contains(
            process_alert(#[trigger] samples[i]),
        ) by {
            if i < limit - 1 {
                let k = choose|k: int|
                    0 <= k < fewer.len() && fewer[k] == process_alert(samples[i]);
                assert(all[k] == fewer[k]);
            } else {
                assert(all[all.len() - 1] == process_alert(samples[i]));
            }
        }
        assert forall|a: int, b: int| 0 <= a < b < all.len() implies reported_pid(all[a])
            != reported_pid(all[b]) by {
            if b < fewer.len() {
                assert(all[a] == fewer[a] && all[b] == fewer[b]);
            } else {
                assert(all[a] == fewer[a]);
                let i = choose|i: int|
                    0 <= i < limit - 1 && first_offence(notified, samples, total, i) && fewer[a]
                        == process_alert(samples[i]);
                assert(samples[i].pid != samples[limit - 1].pid);
            }
        }
    }
}

/// Tick `k` of the run finds the process `pid` over its share for the first
/// time: the one occasion on which the process is reported, if notifications
/// are switched on.
pub open spec fn offends_at(state: WatchdogModel, ticks: Seq<Tick>, k: int, pid: u32) -> bool {
    exists|i: int|
        0 <= i < ticks[k].samples.len() && (#[trigger] ticks[k].samples[i]).pid == pid
            && first_offence(
            state_after(state, ticks.take(k)).notified,
            ticks[k].samples,
            ticks[k].memory_total,
            i,
        )
}

/// A pid once reported stays reported.
proof fn lemma_reported_stays(state: WatchdogModel, ticks: Seq<Tick>, a: int, m: int, pid: u32)
    requires
        0 <= a < m <= ticks.len(),
        offends_at(state, ticks, a, pid),
    ensures
        state_after(state, ticks.take(m)).notified.contains(pid),
    decreases m,
{
    let upto = ticks.take(m);
    assert(upto.drop_last() =~= ticks.take(m - 1));
    assert(upto.last() == ticks[m - 1]);
    if m - 1 > a {
        lemma_reported_stays(state, ticks, a, m - 1, pid);
    }
}

/// A process is reported for its share of memory at most once in the life of
/// the watchdog, however long it stays over the share.
pub proof fn law_one_report_per_pid(
    state: WatchdogModel,
    ticks: Seq<Tick>,
    a: int,
    b: int,
    pid: u32,
)
    requires
        0 <= a < b < ticks.len(),
        offends_at(state, ticks, a, pid),
    ensures
        !offends_at(state, ticks, b, pid),
{
    lemma_reported_stays(state, ticks, a, b, pid);
}

/// A pid that was reported before a run begins is not reported during it.
pub proof fn law_reported_pid_stays_silent(
    state: WatchdogModel,
    ticks: Seq<Tick>,
    k: int,
    pid: u32,
)
    requires
        0 <= k < ticks.len(),
        state.notified.contains(pid),
    ensures
        !offends_at(state, ticks, k, pid),
{
    lemma_reported_kept(state, ticks.take(k), pid);
}

/// The set of reported pids only grows.
proof fn lemma_reported_kept(state: WatchdogModel, ticks: Seq<Tick>, pid: u32)
    requires
        state.notified.contains(pid),
    ensures
        state_after(state, ticks).notified.contains(pid),
    decreases ticks.len(),
{
    if ticks.len() > 0 {
        lemma_reported_kept(state, ticks.drop_last(), pid);
    }
}

} // verus!
