//! The background sampler.
//!
//! Sampling must not stall whoever reads its results. So a cycle does all its
//! work first and only then hands the outcome over in a handful of moves:
//!
//! ```text
//!   collect a sample
//!   advance the cycle: rates, rules, events
//!   apply the update to what is shared
//! ```
//!
//! The pause between cycles is the interval less the time the work took, so the
//! sample rate does not degrade when the machine is busy. Work that overruns
//! the interval skips the pause, and no cycle tries to catch up.

use vstd::prelude::*;

use crate::binary64::{of_int, Binary64};
use crate::delta::{can_diff, diff, lists_rates, system_rate, Snapshot, SnapshotView};
use crate::ring::{after_push, after_pushes, Ring};
use crate::rules::{active_views, event_views, ActiveView, Engine, Event};
use crate::sample::Sample;
use crate::time::{Duration, Instant};
use crate::units::SysConst;

verus! {

/// A single point of history. Deliberately small: a ring holds thousands of
/// these and they carry no heap allocations.
#[derive(Debug, Clone, Copy)]
pub struct HistoryPoint {
    pub cpu_pct: Binary64,
    pub mem_pct: Binary64,
    pub net_rx_bps: Binary64,
    pub net_tx_bps: Binary64,
    pub proc_count: u32,
    pub scan_micros: u64,
}

impl Default for HistoryPoint {
    fn default() -> (r: HistoryPoint)
        ensures
            r == (HistoryPoint {
                cpu_pct: of_int(0),
                mem_pct: of_int(0),
                net_rx_bps: of_int(0),
                net_tx_bps: of_int(0),
                proc_count: 0,
                scan_micros: 0,
            }),
    {
        let zero = Binary64::from_u64(0);
        HistoryPoint {
            cpu_pct: zero,
            mem_pct: zero,
            net_rx_bps: zero,
            net_tx_bps: zero,
            proc_count: 0,
            scan_micros: 0,
        }
    }
}

/// The point of history that a snapshot makes.
pub open spec fn point_of(s: SnapshotView) -> HistoryPoint {
    HistoryPoint {
        cpu_pct: s.system.cpu_pct,
        mem_pct: s.system.mem.used_percent(),
        net_rx_bps: s.system.net_rx_bps,
        net_tx_bps: s.system.net_tx_bps,
        proc_count: s.system.proc_count as u32,
        scan_micros: (s.system.scan_time.nanos / 1_000) as u64,
    }
}

fn history_point(s: &Snapshot) -> (r: HistoryPoint)
    ensures
        r == point_of(s@),
{
    HistoryPoint {
        cpu_pct: s.system.cpu_pct,
        mem_pct: s.system.mem.used_pct(),
        net_rx_bps: s.system.net_rx_bps,
        net_tx_bps: s.system.net_tx_bps,
        proc_count: s.system.proc_count as u32,
        scan_micros: s.system.scan_time.as_micros() as u64,
    }
}

/// How a sampler runs.
pub struct SamplerConfig {
    pub interval: Duration,
    pub history_len: usize,
    pub event_log_len: usize,
}

impl Default for SamplerConfig {
    fn default() -> (r: SamplerConfig)
        ensures
            r.interval.nanos == 1_000_000_000,
            r.history_len == 300,
            r.event_log_len == 200,
    {
        SamplerConfig { interval: Duration::from_secs(1), history_len: 300, event_log_len: 200 }
    }
}

// ------------------------------------------------------------------ cycles --

/// What one cycle makes.
pub struct Update {
    /// The rates since the sample before, if there was one.
    pub snapshot: Option<Snapshot>,
    pub events: Vec<Event>,
    /// Why there is no sample.
    pub error: Option<String>,
    /// The point of history that the snapshot makes.
    pub point: Option<HistoryPoint>,
}

/// What is kept from one cycle to the next.
pub struct Cycle {
    pub prev: Option<Sample>,
    pub engine: Engine,
    pub consts: SysConst,
}

impl Cycle {
    /// The invariant.
    pub open spec fn wf(&self) -> bool {
        &&& self.engine.wf()
        &&& self.prev matches Some(p) ==> p.procs.wf()
    }

    /// A cycle without an earlier sample.
    pub fn new(engine: Engine, consts: SysConst) -> (r: Cycle)
        requires
            engine.wf(),
        ensures
            r.wf(),
            r.prev is None,
            r.engine == engine,
            r.consts == consts,
    {
        Cycle { prev: None, engine, consts }
    }

    /// Takes in a sample, or the reason why there is none.
    ///
    /// The first sample establishes a baseline: rates are undefined until there
    /// are two. A cycle without a sample keeps the sample before.
    pub fn advance(&mut self, result: Result<Sample, String>, now: Instant) -> (r: Update)
        requires
            old(self).wf(),
            result matches Ok(cur) ==> cur.procs.wf(),
            result matches Ok(cur) ==> (old(self).prev matches Some(p) ==> can_diff(
                p@,
                cur@,
                old(self).consts,
            ) && old(self).engine@.tick < u64::MAX),
        ensures
            final(self).wf(),
            final(self).consts == old(self).consts,
            match result {
                Ok(cur) => final(self).prev == Some(cur) && r.error is None,
                Err(e) => final(self).prev == old(self).prev && r.error == Some(e),
            },
            r.snapshot is Some <==> result is Ok && old(self).prev is Some,
            match r.snapshot {
                Some(snap) => {
                    &&& snap.system@ == system_rate(old(self).prev->0@, result->Ok_0@)
                    &&& lists_rates(
                        snap.procs@,
                        old(self).prev->0@,
                        result->Ok_0@,
                        old(self).consts,
                    )
                    &&& final(self).engine@ == old(self).engine@.evaluated(snap@, now)
                    &&& old(self).engine@.reports(snap@, now, event_views(r.events@))
                    &&& r.point == Some(point_of(snap@))
                },
                None => final(self).engine == old(self).engine && r.events@.len() == 0
                    && r.point is None,
            },
    {
        match result {
            Err(e) => Update { snapshot: None, events: Vec::new(), error: Some(e), point: None },
            Ok(cur) => {
                let update = match &self.prev {
                    Some(p) => {
                        let snap = diff(p, &cur, &self.consts);
                        let events = self.engine.evaluate(&snap, now);
                        let point = history_point(&snap);
                        Update { snapshot: Some(snap), events, error: None, point: Some(point) }
                    },
                    None => Update { snapshot: None, events: Vec::new(), error: None, point: None },
                };
                self.prev = Some(cur);
                update
            },
        }
    }

    /// The active alerts at `now`: rule, subject and how long. The longest
    /// active come first.
    pub fn active(&self, now: Instant) -> (r: Vec<(String, String, Duration)>)
        requires
            self.wf(),
        ensures
            exists|v: Seq<ActiveView>| #[trigger]
                self.engine@.lists_active(now, v) && alert_views(r@) == without_instants(v),
    {
        let all = self.engine.active(now);
        let ghost full = all@;
        let ghost v = active_views(full);
        let mut r: Vec<(String, String, Duration)> = Vec::new();
        for a in it: all.into_iter()
            invariant
                it.seq() == full,
                r@.len() == it.index(),
                forall|k: int|
                    0 <= k < r@.len() ==> alert_view(#[trigger] r@[k]) == (
                        full[k].0@,
                        full[k].1@,
                        full[k].2,
                    ),
        {
            let (rule, subject, held, _) = a;
            r.push((rule, subject, held));
        }
        proof {
            assert(alert_views(r@) =~= without_instants(v));
        }
        r
    }
}

/// An active alert: rule, subject and how long.
pub type AlertView = (Seq<char>, Seq<char>, Duration);

/// The contents of an active alert.
pub open spec fn alert_view(a: (String, String, Duration)) -> AlertView {
    (a.0@, a.1@, a.2)
}

/// The contents of a list of active alerts.
pub open spec fn alert_views(v: Seq<(String, String, Duration)>) -> Seq<AlertView> {
    v.map_values(|a: (String, String, Duration)| alert_view(a))
}

/// Active alerts without the instant since when they are.
pub open spec fn without_instants(v: Seq<ActiveView>) -> Seq<AlertView> {
    v.map_values(|a: ActiveView| (a.0, a.1, a.2))
}

// ------------------------------------------------------------ shared state --

/// What the sampler hands to its readers.
///
/// There is no default: a ring has no meaningful default capacity.
pub struct Shared {
    pub latest: Option<Snapshot>,
    pub history: Ring<HistoryPoint>,
    pub events: Ring<Event>,
    /// Rule, subject and duration of everything currently firing.
    pub active_alerts: Vec<(String, String, Duration)>,
    pub last_error: Option<String>,
}

impl Shared {
    /// The invariant.
    pub open spec fn wf(&self) -> bool {
        self.history.wf() && self.events.wf()
    }

    /// Nothing sampled yet.
    pub fn new(history_len: usize, event_log_len: usize) -> (r: Shared)
        ensures
            r.wf(),
            r.latest is None,
            r.history@.len() == 0,
            r.history.slot_count() == if history_len == 0 {
                1
            } else {
                history_len as nat
            },
            r.history.pushes() == 0,
            r.events@.len() == 0,
            r.events.slot_count() == if event_log_len == 0 {
                1
            } else {
                event_log_len as nat
            },
            r.events.pushes() == 0,
            r.active_alerts@.len() == 0,
            r.last_error is None,
    {
        Shared {
            latest: None,
            history: Ring::new(history_len),
            events: Ring::new(event_log_len),
            active_alerts: Vec::new(),
            last_error: None,
        }
    }

    /// Whether the counts of pushes have room for an update.
    pub open spec fn takes(&self, update: Update) -> bool {
        &&& update.point is Some ==> self.history.pushes() < u64::MAX
        &&& self.events.pushes() + update.events@.len() <= u64::MAX
    }

    /// Whether the counts of pushes have room for an update.
    pub fn has_room(&self, update: &Update) -> (r: bool)
        ensures
            r == self.takes(*update),
    {
        (update.point.is_none() || self.history.total_pushed() < u64::MAX)
            && self.events.total_pushed() as u128 + update.events.len() as u128 <= u64::MAX as u128
    }

    /// Takes over what a cycle made, with the active alerts. A cycle without a
    /// snapshot leaves the latest one in place.
    pub fn apply(&mut self, update: Update, active: Vec<(String, String, Duration)>)
        requires
            old(self).wf(),
            old(self).takes(update),
        ensures
            final(self).wf(),
            final(self).latest == match update.snapshot {
                Some(s) => Some(s),
                None => old(self).latest,
            },
            final(self).history@ == match update.point {
                Some(p) => after_push(old(self).history@, old(self).history.slot_count(), p),
                None => old(self).history@,
            },
            final(self).history.slot_count() == old(self).history.slot_count(),
            final(self).history.pushes() == old(self).history.pushes() + if update.point is Some {
                1int
            } else {
                0int
            },
            final(self).events@ == after_pushes(
                old(self).events@,
                old(self).events.slot_count(),
                update.events@,
            ),
            final(self).events.slot_count() == old(self).events.slot_count(),
            final(self).events.pushes() == old(self).events.pushes() + update.events@.len(),
            final(self).active_alerts == active,
            final(self).last_error == update.error,
    {
        if let Some(p) = update.point {
            self.history.push(p);
        }
        self.events.push_all(update.events);
        if update.snapshot.is_some() {
            self.latest = update.snapshot;
        }
        self.active_alerts = active;
        self.last_error = update.error;
    }
}

// ----------------------------------------------------------------- pausing --

/// What to do between two cycles.
#[derive(Debug, Clone, Copy, PartialEq, Eq, Structural)]
pub enum Pause {
    /// Sleep for the rest of the interval.
    Sleep(Duration),
    /// The work took at least as long as the interval: go on at once.
    Overrun,
}

/// What to do after a cycle that took `spent`.
pub open spec fn pause_after(interval: Duration, spent: Duration) -> Pause {
    if spent.nanos < interval.nanos {
        Pause::Sleep(Duration { nanos: (interval.nanos - spent.nanos) as u128 })
    } else {
        Pause::Overrun
    }
}

/// What to do after a cycle that took `spent`.
pub fn pause(interval: Duration, spent: Duration) -> (r: Pause)
    ensures
        r == pause_after(interval, spent),
{
    if spent.nanos < interval.nanos {
        Pause::Sleep(Duration { nanos: interval.nanos - spent.nanos })
    } else {
        Pause::Overrun
    }
}

/// How many cycles there were, and how many of them took at least as long as the
/// interval. A count that is full starts again at zero.
#[derive(Debug, Clone, Copy, PartialEq, Eq, Structural)]
pub struct Counts {
    pub ticks: u64,
    pub overruns: u64,
}

/// One more.
pub open spec fn one_more(n: u64) -> u64 {
    if n == u64::MAX {
        0
    } else {
        (n + 1) as u64
    }
}

impl Counts {
    /// The counts after a cycle that is followed by `p`.
    pub open spec fn counted(self, p: Pause) -> Counts {
        Counts {
            ticks: one_more(self.ticks),
            overruns: match p {
                Pause::Sleep(_) => self.overruns,
                Pause::Overrun => one_more(self.overruns),
            },
        }
    }

    /// No cycle yet.
    pub fn new() -> (r: Counts)
        ensures
            r == (Counts { ticks: 0, overruns: 0 }),
    {
        Counts { ticks: 0, overruns: 0 }
    }

    /// Counts a cycle that is followed by `p`.
    pub fn count(&mut self, p: Pause)
        ensures
            *final(self) == old(self).counted(p),
    {
        self.ticks = self.ticks.wrapping_add(1);
        match p {
            Pause::Sleep(_) => {},
            Pause::Overrun => {
                self.overruns = self.overruns.wrapping_add(1);
            },
        }
    }
}

/// What to do while sleeping.
#[derive(Debug, Clone, Copy, PartialEq, Eq, Structural)]
pub enum Wait {
    /// The sleep is over.
    Done,
    /// The sampler is to stop.
    Stop,
    /// Nap, and look again.
    Nap,
}

/// The longest nap, in nanoseconds. Short enough to notice a stop request
/// promptly.
pub const LONGEST_NAP: u128 = 50_000_000;

/// What to do at `now`, in a sleep of `rest` that began at `start`.
pub open spec fn wait_at(start: Instant, rest: Duration, now: Instant, stop: bool) -> Wait {
    if now.since(start).nanos >= rest.nanos {
        Wait::Done
    } else if stop {
        Wait::Stop
    } else {
        Wait::Nap
    }
}

/// What to do at `now`, in a sleep of `rest` that began at `start`.
pub fn wait(start: Instant, rest: Duration, now: Instant, stop: bool) -> (r: Wait)
    ensures
        r == wait_at(start, rest, now, stop),
{
    if now.saturating_duration_since(start).nanos >= rest.nanos {
        Wait::Done
    } else if stop {
        Wait::Stop
    } else {
        Wait::Nap
    }
}

/// What is left at `now` of a sleep of `rest` that began at `start`.
pub open spec fn left_at(start: Instant, rest: Duration, now: Instant) -> nat {
    let gone = now.since(start).nanos;
    if gone < rest.nanos {
        (rest.nanos - gone) as nat
    } else {
        0
    }
}

/// How long to nap at `now`, in a sleep of `rest` that began at `start`: what is
/// left of it, and at most the longest nap.
pub open spec fn nap_at(start: Instant, rest: Duration, now: Instant) -> Duration {
    let left = left_at(start, rest, now);
    Duration {
        nanos: if left <= LONGEST_NAP {
            left as u128
        } else {
            LONGEST_NAP
        },
    }
}

/// How long to nap at `now`, in a sleep of `rest` that began at `start`.
pub fn nap(start: Instant, rest: Duration, now: Instant) -> (r: Duration)
    ensures
        r == nap_at(start, rest, now),
{
    let gone = now.saturating_duration_since(start).nanos;
    let left = if gone < rest.nanos {
        rest.nanos - gone
    } else {
        0
    };
    Duration {
        nanos: if left <= LONGEST_NAP {
            left
        } else {
            LONGEST_NAP
        },
    }
}

// ------------------------------------------------------------------ laws --

/// The period does not drift: work and sleep make up the interval exactly, and
/// only work that takes the whole interval is an overrun.
pub proof fn law_the_period_does_not_drift(interval: Duration, spent: Duration)
    ensures
        match pause_after(interval, spent) {
            Pause::Sleep(rest) => rest.nanos > 0 && spent.nanos + rest.nanos == interval.nanos,
            Pause::Overrun => spent.nanos >= interval.nanos,
        },
{
}

/// A cycle counts once, and sleeps or overruns: one that is done before the
/// interval is over sleeps for the rest of it and is no overrun; one that takes
/// longer does not sleep, and is exactly one overrun however much longer it took.
pub proof fn law_a_cycle_sleeps_or_overruns(c: Counts, interval: Duration, spent: Duration)
    requires
        c.ticks < u64::MAX,
        c.overruns < u64::MAX,
    ensures
        ({
            let p = pause_after(interval, spent);
            let after = c.counted(p);
            &&& after.ticks == c.ticks + 1
            &&& spent.nanos < interval.nanos ==> p == Pause::Sleep(
                Duration { nanos: (interval.nanos - spent.nanos) as u128 },
            ) && after.overruns == c.overruns
            &&& spent.nanos >= interval.nanos ==> p == Pause::Overrun && after.overruns == c.overruns + 1
        }),
{
}

/// A nap ends in time: it is never longer than what is left of the sleep nor
/// than the longest nap, and a sleep that is not over always has one.
pub proof fn law_naps_are_short(start: Instant, rest: Duration, now: Instant)
    ensures
        nap_at(start, rest, now).nanos <= LONGEST_NAP,
        nap_at(start, rest, now).nanos <= left_at(start, rest, now),
        wait_at(start, rest, now, false) is Nap ==> nap_at(start, rest, now).nanos > 0,
{
}

/// A point of history is that of its snapshot: CPU, memory in percent, what the
/// network receives and sends, how many processes there are and how many
/// microseconds the scan took.
pub proof fn law_points_are_those_of_their_snapshot(s: SnapshotView)
    ensures
        point_of(s).cpu_pct == s.system.cpu_pct,
        point_of(s).mem_pct == s.system.mem.used_percent(),
        point_of(s).net_rx_bps == s.system.net_rx_bps,
        point_of(s).net_tx_bps == s.system.net_tx_bps,
        s.system.proc_count <= u32::MAX ==> point_of(s).proc_count == s.system.proc_count,
        s.system.scan_time.nanos <= u64::MAX ==> point_of(s).scan_micros * 1_000 <= s.system.scan_time.nanos
            < point_of(s).scan_micros * 1_000 + 1_000,
{
}

/// A sleep is over exactly when all of it has passed, whether the sampler is to
/// stop or not. Before that a sampler that is to stop stops, and any other naps
/// for what is left, though not for longer than fifty milliseconds.
pub proof fn law_sleeps_last_as_long_as_they_should(start: Instant, rest: Duration, now: Instant, stop: bool)
    requires
        now.nanos >= start.nanos,
    ensures
        wait_at(start, rest, now, stop) is Done <==> now.nanos - start.nanos >= rest.nanos,
        wait_at(start, rest, now, stop) is Stop <==> stop && now.nanos - start.nanos < rest.nanos,
        wait_at(start, rest, now, stop) is Nap <==> !stop && now.nanos - start.nanos < rest.nanos,
        now.nanos - start.nanos < rest.nanos && rest.nanos - (now.nanos - start.nanos) <= 50_000_000
            ==> nap_at(start, rest, now).nanos == rest.nanos - (now.nanos - start.nanos),
        rest.nanos - (now.nanos - start.nanos) > 50_000_000 ==> nap_at(start, rest, now).nanos == 50_000_000,
{
}

} // verus!
