//! What an evaluation of the rules observes and what it reports.

use vstd::prelude::*;

use crate::alerting::{
    about, law_each_subject_has_its_own_events, law_events_have_their_subjects, law_no_alert_latches, law_observed_subjects_move_on,
    lemma_observation, observation, processes_once, reported_of, tagged, untagged, Look, Tagged,
};
use crate::binary64::of_int;
use crate::delta::{ProcRateView, SnapshotView};
use crate::numbers::dec_int;
use crate::rules::{
    gone_event, is_left, observed, observed_by, observed_processes, process_id, process_label, process_value, reports_gone, run, states_fit,
    system_metric, watched, ActiveView, EngineView, EventKind, EventView, Metric, Observed, Op, Phase, RuleView, SubjectId,
    TargetView,
};
use crate::table::lookup;
use crate::time::{Duration, Instant};

verus! {

// ----------------------------------------------------------- observations --

proof fn lemma_observation_joins(a: Seq<Observed>, b: Seq<Observed>, id: SubjectId)
    ensures
        observation(a + b, id) == match observation(b, id) {
            Some(o) => Some(o),
            None => observation(a, id),
        },
    decreases b.len(),
{
    if b.len() == 0 {
        assert(a + b =~= a);
    } else {
        assert((a + b).drop_last() =~= a + b.drop_last());
        assert((a + b).last() == b.last());
        lemma_observation_joins(a, b.drop_last(), id);
    }
}

proof fn lemma_of_process(ri: int, rule: RuleView, procs: Seq<ProcRateView>, k: int)
    requires
        0 <= k < procs.len(),
        forall|a: int, b: int|
            0 <= a < b < procs.len() ==> (#[trigger] procs[a]).key != (#[trigger] procs[b]).key,
    ensures
        observation(observed_processes(ri, rule, procs), process_id(ri, procs[k])) == match process_value(
            rule,
            procs[k],
        ) {
            Some(value) => Some(
                Observed { id: process_id(ri, procs[k]), label: process_label(procs[k]), value },
            ),
            None => None,
        },
    decreases procs.len(),
{
    let rest = procs.drop_last();
    let all = observed_processes(ri, rule, procs);
    let before = observed_processes(ri, rule, rest);
    let n = procs.len() - 1;
    assert(procs[n] == procs.last());
    if process_value(rule, procs.last()) is Some {
        assert(all.drop_last() =~= before);
    }
    if k == n {
        lemma_not_of_others(ri, rule, rest, process_id(ri, procs[k]));
    } else {
        assert forall|a: int, b: int| 0 <= a < b < rest.len() implies (#[trigger] rest[a]).key != (
        #[trigger] rest[b]).key by {
            assert(rest[a] == procs[a] && rest[b] == procs[b]);
        }
        lemma_of_process(ri, rule, rest, k);
        assert(procs[k].key != procs[n].key);
    }
}

proof fn lemma_not_of_others(ri: int, rule: RuleView, procs: Seq<ProcRateView>, id: SubjectId)
    requires
        forall|i: int| 0 <= i < procs.len() ==> process_id(ri, #[trigger] procs[i]) != id,
    ensures
        observation(observed_processes(ri, rule, procs), id) is None,
    decreases procs.len(),
{
    if procs.len() > 0 {
        let rest = procs.drop_last();
        let all = observed_processes(ri, rule, procs);
        assert(process_id(ri, procs[procs.len() - 1]) != id);
        assert forall|i: int| 0 <= i < rest.len() implies process_id(ri, #[trigger] rest[i]) != id by {
            assert(rest[i] == procs[i]);
        }
        lemma_not_of_others(ri, rule, rest, id);
        if process_value(rule, procs.last()) is Some {
            assert(all.drop_last() =~= observed_processes(ri, rule, rest));
        }
    }
}

proof fn lemma_of_rule(rules: Seq<RuleView>, snap: SnapshotView, id: SubjectId)
    requires
        rules.len() <= usize::MAX,
    ensures
        id.rule < rules.len() ==> observation(observed(rules, snap), id) == observation(
            observed_by(id.rule as int, rules[id.rule as int], snap),
            id,
        ),
        id.rule >= rules.len() ==> observation(observed(rules, snap), id) is None,
    decreases rules.len(),
{
    if rules.len() > 0 {
        let less = rules.drop_last();
        let ri = rules.len() - 1;
        let own = observed_by(ri, rules.last(), snap);
        lemma_of_rule(less, snap, id);
        lemma_observation_joins(observed(less, snap), own, id);
        if id.rule != ri {
            if rules.last().target is Process {
                lemma_not_of_others(ri, rules.last(), snap.procs, id);
            } else {
                lemma_observation(own, id);
            }
            if id.rule < less.len() {
                assert(less[id.rule as int] == rules[id.rule as int]);
            }
        }
    }
}

/// Whether rule `ri` is about processes that are called `name`.
pub open spec fn about_name(rules: Seq<RuleView>, ri: int, name: Seq<char>) -> bool {
    0 <= ri < rules.len() <= usize::MAX && rules[ri].target == TargetView::Process(name)
}

/// Of a process that is called as a rule says, or any where it says `*`, and that
/// was there before, the rule observes the field of its own metric: whatever the
/// other fields are, under the name and PID of the process. A counter that could
/// not be read is not observed, and neither is what only the system as a whole
/// has.
pub proof fn law_each_metric_observes_its_own_field(
    rules: Seq<RuleView>,
    snap: SnapshotView,
    ri: int,
    name: Seq<char>,
    k: int,
)
    requires
        about_name(rules, ri, name),
        processes_once(snap),
        0 <= k < snap.procs.len(),
        name == "*"@ || name == snap.procs[k].comm,
        !snap.procs[k].is_new,
    ensures
        ({
            let p = snap.procs[k];
            let metric = rules[ri].metric;
            let id = SubjectId { rule: ri as usize, proc_key: Some((p.key.pid, p.key.starttime)) };
            let label = p.comm + " (pid "@ + dec_int(p.pid as int) + ")"@;
            let seen = observation(observed(rules, snap), id);
            &&& metric == Metric::CpuPct ==> seen == Some(Observed { id, label, value: p.cpu_pct })
            &&& metric == Metric::Rss ==> seen == Some(
                Observed { id, label, value: of_int(p.rss_bytes as int) },
            )
            &&& metric == Metric::Threads ==> seen == Some(
                Observed { id, label, value: of_int(p.threads as int) },
            )
            &&& metric == Metric::ReadBps && p.read_bps is Some ==> seen == Some(
                Observed { id, label, value: p.read_bps->0 },
            )
            &&& metric == Metric::WriteBps && p.write_bps is Some ==> seen == Some(
                Observed { id, label, value: p.write_bps->0 },
            )
            &&& metric == Metric::ReadBps && p.read_bps is None ==> seen is None
            &&& metric == Metric::WriteBps && p.write_bps is None ==> seen is None
            &&& metric == Metric::MemPct || metric == Metric::NetRxBps || metric == Metric::NetTxBps || metric
                == Metric::ProcCount ==> seen is None
        }),
{
    lemma_of_process(ri, rules[ri], snap.procs, k);
    lemma_of_rule(rules, snap, process_id(ri, snap.procs[k]));
}

/// A rule observes nothing of a process with another name than its own, nor of a
/// new one, nor of one that is not there; a rule on the system observes no
/// process.
pub proof fn law_a_rule_observes_only_what_it_watches(
    rules: Seq<RuleView>,
    snap: SnapshotView,
    id: SubjectId,
    key: (i32, u64),
)
    requires
        rules.len() <= usize::MAX,
        processes_once(snap),
        id.proc_key == Some(key),
        id.rule >= rules.len() || rules[id.rule as int].target == TargetView::System || (forall|k: int|
            0 <= k < snap.procs.len() && (#[trigger] snap.procs[k]).key.pid == key.0
                && snap.procs[k].key.starttime == key.1 ==> snap.procs[k].is_new || !about_name(
                rules,
                id.rule as int,
                "*"@,
            ) && !about_name(rules, id.rule as int, snap.procs[k].comm)),
    ensures
        observation(observed(rules, snap), id) is None,
{
    let ri = id.rule as int;
    lemma_of_rule(rules, snap, id);
    if id.rule < rules.len() && rules[ri].target is Process {
        if exists|k: int| 0 <= k < snap.procs.len() && process_id(ri, #[trigger] snap.procs[k]) == id {
            let k = choose|k: int| 0 <= k < snap.procs.len() && process_id(ri, #[trigger] snap.procs[k]) == id;
            lemma_of_process(ri, rules[ri], snap.procs, k);
        } else {
            lemma_not_of_others(ri, rules[ri], snap.procs, id);
        }
    } else if id.rule < rules.len() {
        lemma_observation(observed_by(ri, rules[ri], snap), id);
    }
}

/// A rule on the system observes the field of its own metric, whatever the
/// processes do; a metric that only processes have is not observed.
pub proof fn law_system_rules_observe_the_system(rules: Seq<RuleView>, snap: SnapshotView, ri: int)
    requires
        0 <= ri < rules.len() <= usize::MAX,
        rules[ri].target == TargetView::System,
    ensures
        ({
            let s = snap.system;
            let metric = rules[ri].metric;
            let id = SubjectId { rule: ri as usize, proc_key: None };
            let label = "system"@;
            let seen = observation(observed(rules, snap), id);
            &&& metric == Metric::CpuPct ==> seen == Some(Observed { id, label, value: s.cpu_pct })
            &&& metric == Metric::MemPct ==> seen == Some(
                Observed { id, label, value: s.mem.used_percent() },
            )
            &&& metric == Metric::NetRxBps ==> seen == Some(Observed { id, label, value: s.net_rx_bps })
            &&& metric == Metric::NetTxBps ==> seen == Some(Observed { id, label, value: s.net_tx_bps })
            &&& metric == Metric::ProcCount ==> seen == Some(
                Observed { id, label, value: of_int(s.proc_count as int) },
            )
            &&& metric == Metric::Rss || metric == Metric::ReadBps || metric == Metric::WriteBps || metric
                == Metric::Threads ==> seen is None
        }),
{
    let id = SubjectId { rule: ri as usize, proc_key: None };
    lemma_of_rule(rules, snap, id);
    let own = observed_by(ri, rules[ri], snap);
    if system_metric(rules[ri].metric, snap.system) is Some {
        assert(own.last() == own[0]);
    }
}

/// A rule on processes observes nothing of the system as a whole.
pub proof fn law_process_rules_observe_no_system(rules: Seq<RuleView>, snap: SnapshotView, id: SubjectId)
    requires
        rules.len() <= usize::MAX,
        id.proc_key is None,
        id.rule >= rules.len() || rules[id.rule as int].target is Process,
    ensures
        observation(observed(rules, snap), id) is None,
{
    lemma_of_rule(rules, snap, id);
    if id.rule < rules.len() {
        lemma_not_of_others(id.rule as int, rules[id.rule as int], snap.procs, id);
    }
}

// ----------------------------------------------------------------- events --

/// How long ago `since` was.
pub open spec fn ago(now: Instant, since: Instant) -> Duration {
    Duration {
        nanos: if now.nanos >= since.nanos {
            (now.nanos - since.nanos) as u128
        } else {
            0
        },
    }
}

/// What one value does to its subject, and what is reported of it.
///
/// A value beyond the threshold starts the wait, or fires at once where there is
/// none; the alert fires when the wait is over and the value is still beyond.
/// Any other value ends the wait without a word. An active alert stays until a
/// value has come back past the clear value, and then clears. The event names
/// the rule, the subject and the metric, and gives the value, the limit that it
/// passed and how long the condition or the alert had lasted.
pub proof fn law_what_a_value_does(e: EngineView, look: Look, id: SubjectId, o: Observed)
    requires
        states_fit(e.states, e.rules.len(), e.tick),
        e.tick < u64::MAX,
        e.rules.len() <= usize::MAX,
        processes_once(look.snap),
        observation(observed(e.rules, look.snap), id) == Some(o),
    ensures
        ({
            let rule = e.rules[id.rule as int];
            let value = o.value;
            let now = look.now;
            let beyond = rule.op == Op::Gt && rule.threshold.lt(value) || rule.op == Op::Lt && value.lt(
                rule.threshold,
            );
            let back = rule.op == Op::Gt && value.lt(rule.clear) || rule.op == Op::Lt && rule.clear.lt(value);
            let next = lookup(e.evaluated(look.snap, now).states, id);
            let said = reported_of(e, look, id);
            let fired = |held_for: Duration|
                EventView {
                    kind: EventKind::Fired,
                    rule_name: rule.name,
                    subject: o.label,
                    metric: rule.metric,
                    value,
                    threshold: rule.threshold,
                    held_for,
                };
            match lookup(e.states, id) {
                None => {
                    &&& !beyond ==> next is None && said == Seq::<EventView>::empty()
                    &&& beyond && rule.sustain.nanos > 0 ==> next is Some && next->0.phase == Phase::Pending
                        && next->0.since == now && said == Seq::<EventView>::empty()
                    &&& beyond && rule.sustain.nanos == 0 ==> next is Some && next->0.phase == Phase::Firing
                        && next->0.since == now && said == seq![fired(Duration { nanos: 0 })]
                },
                Some(st) => match st.phase {
                    Phase::Pending => {
                        let held = ago(now, st.since);
                        &&& !beyond ==> next is None && said == Seq::<EventView>::empty()
                        &&& beyond && held.nanos < rule.sustain.nanos ==> next is Some && next->0.phase
                            == Phase::Pending && next->0.since == st.since && said == Seq::<
                            EventView,
                        >::empty()
                        &&& beyond && held.nanos >= rule.sustain.nanos ==> next is Some && next->0.phase
                            == Phase::Firing && next->0.since == now && said == seq![fired(held)]
                    },
                    Phase::Firing => {
                        &&& !back ==> next is Some && next->0.phase == Phase::Firing && next->0.since
                            == st.since && said == Seq::<EventView>::empty()
                        &&& back ==> next is None && said == seq![
                            EventView {
                                kind: EventKind::Cleared,
                                rule_name: rule.name,
                                subject: o.label,
                                metric: rule.metric,
                                value,
                                threshold: rule.clear,
                                held_for: ago(now, st.since),
                            },
                        ]
                    },
                },
            }
        }),
        ({
            let next = lookup(e.evaluated(look.snap, look.now).states, id);
            next is Some ==> next->0.label == o.label && next->0.seen == e.tick + 1
        }),
{
    let obs = observed(e.rules, look.snap);
    lemma_observation(obs, id);
    law_each_subject_has_its_own_events(e, look, id);
    let i = choose|i: int| 0 <= i < obs.len() && #[trigger] obs[i] == o;
    law_observed_subjects_move_on(e, look.snap, look.now, i);
}

/// An active alert whose subject is gone clears with an event of its own: it has
/// no value, and gives how long the alert was active.
pub proof fn law_what_is_said_of_the_gone(e: EngineView, look: Look, id: SubjectId)
    requires
        states_fit(e.states, e.rules.len(), e.tick),
        e.tick < u64::MAX,
        e.rules.len() <= usize::MAX,
        processes_once(look.snap),
        e.states.contains_key(id),
        e.states[id].phase == Phase::Firing,
        observation(observed(e.rules, look.snap), id) is None,
        !watched(e.rules[id.rule as int], look.snap.procs, id),
    ensures
        reported_of(e, look, id) == seq![
            EventView {
                kind: EventKind::ClearedGone,
                rule_name: e.rules[id.rule as int].name,
                subject: e.states[id].label,
                metric: e.rules[id.rule as int].metric,
                value: of_int(0),
                threshold: e.rules[id.rule as int].threshold,
                held_for: ago(look.now, e.states[id].since),
            },
        ],
        !e.evaluated(look.snap, look.now).states.contains_key(id),
{
    law_each_subject_has_its_own_events(e, look, id);
    lemma_observation(observed(e.rules, look.snap), id);
    law_no_alert_latches(e, look.snap, look.now, id);
}

/// A process is watched while it is listed under its own PID and start, was there
/// before, and has the name that the rule is about, or any where that is `*`.
pub proof fn law_what_is_watched(rule: RuleView, procs: Seq<ProcRateView>, id: SubjectId)
    ensures
        watched(rule, procs, id) <==> exists|i: int|
            0 <= i < procs.len() && id.proc_key == Some(
                ((#[trigger] procs[i]).key.pid, procs[i].key.starttime),
            ) && !procs[i].is_new && (rule.target == TargetView::Process("*"@) || rule.target
                == TargetView::Process(procs[i].comm)),
{
}

proof fn lemma_about_untagged(v: Seq<Tagged>, id: SubjectId, e: EventView)
    requires
        about(v, id).contains(e),
    ensures
        untagged(v).contains(e),
    decreases v.len(),
{
    if v.len() > 0 {
        let less = v.drop_last();
        let i = about(v, id).index_of(e);
        if v.last().0 == id && i == about(less, id).len() {
            assert(untagged(v)[v.len() - 1] == e);
        } else {
            assert(about(less, id)[i] == e);
            lemma_about_untagged(less, id, e);
            let j = untagged(less).index_of(e);
            assert(untagged(v)[j] == e);
        }
    }
}

proof fn lemma_untagged_about(v: Seq<Tagged>, i: int)
    requires
        0 <= i < v.len(),
    ensures
        about(v, v[i].0).contains(v[i].1),
    decreases v.len(),
{
    let less = v.drop_last();
    let id = v[i].0;
    if i == less.len() {
        assert(about(v, id).last() == v[i].1);
        assert(about(v, id)[about(v, id).len() - 1] == v[i].1);
    } else {
        lemma_untagged_about(less, i);
        assert(less[i] == v[i]);
        let j = about(less, id).index_of(v[i].1);
        assert(about(v, id)[j] == v[i].1);
    }
}

/// The events of an evaluation are those of its subjects: every event of a
/// subject is among them, and every one of them is that of a subject.
pub proof fn law_events_are_reported(e: EngineView, look: Look, events: Seq<EventView>, id: SubjectId, i: int)
    requires
        e.reports(look.snap, look.now, events),
    ensures
        forall|k: int|
            0 <= k < reported_of(e, look, id).len() ==> events.contains(#[trigger] reported_of(e, look, id)[k]),
        0 <= i < events.len() ==> exists|x: SubjectId| #[trigger] reported_of(e, look, x).contains(events[i]),
{
    let tick = (e.tick + 1) as u64;
    let obs = observed(e.rules, look.snap);
    let (m, seen) = run(e.rules, e.states, obs, look.now, tick);
    let left = events.skip(seen.len() as int);
    let ids = choose|ids: Seq<SubjectId>| reports_gone(ids, left, e.rules, m, look.snap.procs, look.now, tick);
    let v = tagged(e.rules, e.states, obs, look.now, tick);
    law_events_have_their_subjects(e.rules, e.states, obs, look.now, tick);
    let said = reported_of(e, look, id);
    let own = about(v, id);
    assert forall|k: int| 0 <= k < said.len() implies events.contains(#[trigger] said[k]) by {
        if k < own.len() {
            assert(own[k] == said[k]);
            lemma_about_untagged(v, id, said[k]);
            let j = seen.index_of(said[k]);
            assert(events.take(seen.len() as int)[j] == seen[j]);
            assert(events[j] == said[k]);
        } else {
            assert(is_left(m, tick, e.rules, look.snap.procs, id));
            assert(ids.contains(id));
            let j = ids.index_of(id);
            assert(left[j] == gone_event(e.rules, m, ids[j], look.now));
            assert(events[seen.len() + j] == left[j]);
            assert(events[seen.len() + j] == said[k]);
        }
    }
    if 0 <= i < events.len() {
        if i < seen.len() {
            assert(events.take(seen.len() as int)[i] == seen[i]);
            assert(untagged(v)[i] == v[i].1);
            lemma_untagged_about(v, i);
            let x = v[i].0;
            let j = about(v, x).index_of(v[i].1);
            assert(reported_of(e, look, x)[j] == about(v, x)[j]);
            assert(reported_of(e, look, x).contains(events[i]));
        } else {
            let j = i - seen.len();
            let x = ids[j];
            assert(left[j] == events[i]);
            assert(left[j] == gone_event(e.rules, m, ids[j], look.now));
            assert(ids.contains(x));
            let r = reported_of(e, look, x);
            assert(is_left(m, tick, e.rules, look.snap.procs, x));
            assert(r[r.len() - 1] == events[i]);
            assert(reported_of(e, look, x).contains(events[i]));
        }
    }
}

/// A rule without a wait fires on the first value beyond its threshold that it
/// observes of a process: there is then an event with that very value.
pub proof fn law_an_event_gives_the_observed_value(
    e: EngineView,
    look: Look,
    events: Seq<EventView>,
    id: SubjectId,
    o: Observed,
)
    requires
        states_fit(e.states, e.rules.len(), e.tick),
        e.tick < u64::MAX,
        e.rules.len() <= usize::MAX,
        processes_once(look.snap),
        e.reports(look.snap, look.now, events),
        observation(observed(e.rules, look.snap), id) == Some(o),
        !e.states.contains_key(id),
        e.rules[id.rule as int].sustain.nanos == 0,
        e.rules[id.rule as int].op == Op::Gt && e.rules[id.rule as int].threshold.lt(o.value)
            || e.rules[id.rule as int].op == Op::Lt && o.value.lt(e.rules[id.rule as int].threshold),
    ensures
        events.contains(
            EventView {
                kind: EventKind::Fired,
                rule_name: e.rules[id.rule as int].name,
                subject: o.label,
                metric: e.rules[id.rule as int].metric,
                value: o.value,
                threshold: e.rules[id.rule as int].threshold,
                held_for: Duration { nanos: 0 },
            },
        ),
        e.evaluated(look.snap, look.now).fires(id),
{
    law_what_a_value_does(e, look, id, o);
    law_events_are_reported(e, look, events, id, 0);
    assert(reported_of(e, look, id).len() == 1);
    assert(events.contains(reported_of(e, look, id)[0]));
}

/// An evaluation counts as one, and changes no rule.
pub proof fn law_an_evaluation_counts(e: EngineView, look: Look)
    requires
        e.tick < u64::MAX,
    ensures
        e.evaluated(look.snap, look.now).tick == e.tick + 1,
        e.evaluated(look.snap, look.now).rules == e.rules,
{
}

/// The list of active alerts has each that is active once, with the name of its
/// rule, its subject, for how long and since when, the longest first; and no
/// other.
pub proof fn law_active_alerts_are_listed(e: EngineView, now: Instant, v: Seq<ActiveView>, id: SubjectId, i: int, j: int)
    requires
        e.lists_active(now, v),
    ensures
        e.states.contains_key(id) && e.states[id].phase == Phase::Firing ==> v.contains(
            (
                e.rules[id.rule as int].name,
                e.states[id].label,
                ago(now, e.states[id].since),
                e.states[id].since,
            ),
        ),
        0 <= i < v.len() ==> exists|x: SubjectId| #[trigger]
            e.states.contains_key(x) && e.states[x].phase == Phase::Firing && v[i] == (
                e.rules[x.rule as int].name,
                e.states[x].label,
                ago(now, e.states[x].since),
                e.states[x].since,
            ),
        0 <= i < j < v.len() ==> v[i].2.nanos >= v[j].2.nanos,
        e.firing().finite(),
        v.len() == e.firing().len(),
{
    let ids = choose|ids: Seq<SubjectId>| e.lists_active_as(ids, now, v);
    if e.states.contains_key(id) && e.states[id].phase == Phase::Firing {
        assert(e.fires(id));
        assert(ids.contains(id));
        let k = ids.index_of(id);
        assert(v[k] == e.active_entry(ids[k], now));
    }
    if 0 <= i < v.len() {
        let x = ids[i];
        assert(ids.contains(x));
        assert(v[i] == e.active_entry(ids[i], now));
        assert(e.states.contains_key(x));
    }
    ids.unique_seq_to_set();
    assert(ids.to_set() =~= e.firing()) by {
        assert forall|x: SubjectId| ids.to_set().contains(x) <==> e.firing().contains(x) by {
            assert(ids.contains(x) <==> e.fires(x));
        }
    }
}

/// Observations come in order: rule by rule, and within a rule process by process
/// as the snapshot lists them.
pub proof fn law_observations_come_in_order(rules: Seq<RuleView>, snap: SnapshotView, i: int, j: int)
    requires
        rules.len() <= usize::MAX,
        0 <= i < j < observed(rules, snap).len(),
    ensures
        ({
            let a = observed(rules, snap)[i].id;
            let b = observed(rules, snap)[j].id;
            &&& a.rule <= b.rule < rules.len()
            &&& a.rule == b.rule ==> exists|x: int, y: int|
                0 <= x < y < snap.procs.len() && a.proc_key == Some(
                    ((#[trigger] snap.procs[x]).key.pid, snap.procs[x].key.starttime),
                ) && b.proc_key == Some(((#[trigger] snap.procs[y]).key.pid, snap.procs[y].key.starttime))
        }),
    decreases rules.len(),
{
    if rules.len() > 0 {
        let less = rules.drop_last();
        let before = observed(less, snap);
        let all = observed(rules, snap);
        let ri = rules.len() - 1;
        let own = observed_by(ri, rules.last(), snap);
        if j < before.len() {
            law_observations_come_in_order(less, snap, i, j);
        } else if i < before.len() {
            lemma_rule_of(less, snap, i);
            lemma_own_rule(ri, rules.last(), snap, j - before.len());
            assert(all[j] == own[j - before.len()]);
        } else {
            assert(all[i] == own[i - before.len()] && all[j] == own[j - before.len()]);
            assert(rules.last().target is Process);
            lemma_processes_in_order(ri, rules.last(), snap.procs, i - before.len(), j - before.len());
        }
    }
}

proof fn lemma_own_rule(ri: int, rule: RuleView, snap: SnapshotView, i: int)
    requires
        0 <= ri <= usize::MAX,
        0 <= i < observed_by(ri, rule, snap).len(),
    ensures
        observed_by(ri, rule, snap)[i].id.rule == ri,
{
    if rule.target is Process {
        lemma_place(ri, rule, snap.procs, i);
    }
}

proof fn lemma_rule_of(rules: Seq<RuleView>, snap: SnapshotView, i: int)
    requires
        rules.len() <= usize::MAX,
        0 <= i < observed(rules, snap).len(),
    ensures
        observed(rules, snap)[i].id.rule < rules.len(),
    decreases rules.len(),
{
    if rules.len() > 0 {
        let before = observed(rules.drop_last(), snap);
        if i < before.len() {
            lemma_rule_of(rules.drop_last(), snap, i);
        } else {
            lemma_own_rule(rules.len() - 1, rules.last(), snap, i - before.len());
        }
    }
}

/// An observation of a process is that of one at some place.
proof fn lemma_place(ri: int, rule: RuleView, procs: Seq<ProcRateView>, i: int) -> (x: int)
    requires
        0 <= i < observed_processes(ri, rule, procs).len(),
    ensures
        0 <= x < procs.len(),
        observed_processes(ri, rule, procs)[i].id == process_id(ri, procs[x]),
    decreases procs.len(),
{
    let rest = procs.drop_last();
    if i < observed_processes(ri, rule, rest).len() {
        lemma_place(ri, rule, rest, i)
    } else {
        procs.len() - 1
    }
}

proof fn lemma_processes_in_order(ri: int, rule: RuleView, procs: Seq<ProcRateView>, i: int, j: int)
    requires
        0 <= ri <= usize::MAX,
        0 <= i < j < observed_processes(ri, rule, procs).len(),
    ensures
        ({
            let a = observed_processes(ri, rule, procs)[i].id;
            let b = observed_processes(ri, rule, procs)[j].id;
            &&& a.rule == ri
            &&& b.rule == ri
            &&& exists|x: int, y: int|
                0 <= x < y < procs.len() && a.proc_key == Some(
                    ((#[trigger] procs[x]).key.pid, procs[x].key.starttime),
                ) && b.proc_key == Some(((#[trigger] procs[y]).key.pid, procs[y].key.starttime))
        }),
    decreases procs.len(),
{
    let rest = procs.drop_last();
    let before = observed_processes(ri, rule, rest);
    let all = observed_processes(ri, rule, procs);
    if j < before.len() {
        lemma_processes_in_order(ri, rule, rest, i, j);
        let (x, y) = choose|x: int, y: int|
            0 <= x < y < rest.len() && before[i].id.proc_key == Some(
                ((#[trigger] rest[x]).key.pid, rest[x].key.starttime),
            ) && before[j].id.proc_key == Some(((#[trigger] rest[y]).key.pid, rest[y].key.starttime));
        assert(procs[x] == rest[x] && procs[y] == rest[y]);
    } else {
        let x = lemma_place(ri, rule, rest, i);
        assert(procs[x] == rest[x]);
        let y = procs.len() - 1;
        assert(procs[y] == procs.last());
    }
}

} // verus!
