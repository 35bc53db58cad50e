//! What the alert rules and their engine promise.

use vstd::prelude::*;

use crate::binary64::Binary64;
use crate::delta::{lists_rates, ProcRateView, Snapshot, SnapshotView};
use crate::rules::{
    advance, errors_in, gone_event, is_left, line_outcome, metric_named, noted, observed, observed_by, observed_processes,
    process_id, process_value, reports_gone, rule_line, rule_of, rules_in, run, sane, states_fit, watched, with_state, EngineView, EventKind, EventView, Metric,
    Observed, Phase, RuleView, StateView, SubjectId,
};
use crate::sample::SampleView;
use crate::table::lookup;
use crate::text::{lemma_first_index, lemma_nothing_lost, lemma_span, other_than};
use crate::time::Instant;
use crate::units::SysConst;

verus! {

// ------------------------------------------------------------ rule files --

/// The name of a metric names that metric.
pub proof fn law_metric_names_read_back(m: Metric)
    ensures
        metric_named(m.text()) == Some(m),
{
    reveal_strlit("cpu_pct");
    reveal_strlit("cpu");
    reveal_strlit("mem_pct");
    reveal_strlit("rss");
    reveal_strlit("rss_bytes");
    reveal_strlit("mem");
    reveal_strlit("read_bps");
    reveal_strlit("write_bps");
    reveal_strlit("net_rx_bps");
    reveal_strlit("net_tx_bps");
    reveal_strlit("threads");
    reveal_strlit("proc_count");
    let s = m.text();
    // The names differ in length or in their first letters.
    if s.len() == 7 {
        assert("cpu_pct"@[0] == 'c' && "mem_pct"@[0] == 'm' && "threads"@[0] == 't');
    }
    if s.len() == 3 {
        assert("rss"@[0] == 'r' && "cpu"@[0] == 'c' && "mem"@[0] == 'm');
    }
    if s.len() == 9 {
        assert("write_bps"@[0] == 'w' && "rss_bytes"@[0] == 'r');
    }
    if s.len() == 10 {
        assert("net_rx_bps"@[4] == 'r' && "net_tx_bps"@[4] == 't' && "proc_count"@[0] == 'p');
        assert("net_rx_bps"@[0] == 'n' && "net_tx_bps"@[0] == 'n');
    }
}

/// The number of lines with nothing on them but whitespace and comments.
pub open spec fn blanks_in(ls: Seq<Seq<char>>) -> nat
    decreases ls.len(),
{
    if ls.len() == 0 {
        0
    } else if line_outcome(ls.last()) is None {
        blanks_in(ls.drop_last()) + 1
    } else {
        blanks_in(ls.drop_last())
    }
}

/// Every line is blank, a rule or an error: none is lost and none counts twice.
pub proof fn law_every_line_counts_once(ls: Seq<Seq<char>>)
    ensures
        rules_in(ls).len() + errors_in(ls).len() + blanks_in(ls) == ls.len(),
    decreases ls.len(),
{
    if ls.len() > 0 {
        law_every_line_counts_once(ls.drop_last());
    }
}

/// A line that is no rule keeps no other line from being one.
pub proof fn law_bad_lines_discard_no_rules(ls: Seq<Seq<char>>, i: int)
    requires
        0 <= i < ls.len(),
        !(line_outcome(ls[i]) matches Some(Ok(_))),
    ensures
        rules_in(ls.remove(i)) == rules_in(ls),
{
    lemma_nothing_lost(ls, rule_line(), i);
}

/// An error gives the number, the text and the first fault of the line it is
/// about.
pub proof fn law_errors_point_at_their_line(ls: Seq<Seq<char>>, i: int)
    requires
        0 <= i < errors_in(ls).len(),
    ensures
        ({
            let e = errors_in(ls)[i];
            &&& 1 <= e.line_no <= ls.len()
            &&& ls[e.line_no - 1] == e.line
            &&& line_outcome(e.line) matches Some(Err(reason)) && reason.words() == e.reason
        }),
    decreases ls.len(),
{
    if ls.len() > 0 {
        let before = errors_in(ls.drop_last());
        if i < before.len() {
            law_errors_point_at_their_line(ls.drop_last(), i);
        }
    }
}

/// What follows a `#` says nothing.
pub proof fn law_comments_are_ignored(line: Seq<char>, comment: Seq<char>)
    requires
        !line.contains('#'),
    ensures
        line_outcome(line + seq!['#'] + comment) == line_outcome(line),
{
    let s = line + seq!['#'] + comment;
    let n = line.len() as int;
    assert forall|k: int| 0 <= k < n implies s[k] != '#' by {
        assert(s[k] == line[k]);
    }
    assert(s[n] == '#');
    lemma_first_index(s, '#', n);
    lemma_span(line, other_than('#'), n as nat);
    assert(s.take(n) =~= line);
    assert(line.take(n) =~= line);
}

/// A breach of the threshold is beyond the clear value too. So an alert never
/// clears on a value that would fire it.
pub open spec fn steady(rule: RuleView) -> bool {
    forall|v: Binary64| #[trigger] rule.breached_by(v) ==> rule.held_by(v)
}

/// Every rule that is read has its clear value on the side on which a value
/// can come back past it.
pub proof fn law_every_rule_can_clear(t: Seq<Seq<char>>)
    ensures
        rule_of(t) matches Ok(rule) ==> steady(rule) && (rule.clear == rule.threshold || sane(
            rule.op,
            rule.clear,
            rule.threshold,
        )),
{
}

// ---------------------------------------------------- one subject in time --

/// One observation of one subject.
pub struct Moment {
    pub label: Seq<char>,
    /// The value, or none where the subject was there and its value could not be
    /// read.
    pub value: Option<Binary64>,
    pub now: Instant,
    pub tick: u64,
}

/// Whether a value was read and breaches the threshold.
pub open spec fn breached_at(rule: RuleView, o: Moment) -> bool {
    o.value is Some && rule.breached_by(o.value->0)
}

/// Whether no value was read that has come back past the clear value.
pub open spec fn held_at(rule: RuleView, o: Moment) -> bool {
    o.value is Some ==> rule.held_by(o.value->0)
}

/// What becomes of one subject that is there. Where its value could not be read
/// an active alert stays, and nothing else is known to hold any more.
pub open spec fn passed(st: Option<StateView>, rule: RuleView, o: Moment) -> (
    Option<StateView>,
    Option<EventView>,
) {
    match o.value {
        Some(value) => advance(st, rule, o.label, value, o.now, o.tick),
        None => (
            if in_phase(st, Phase::Firing) {
                st
            } else {
                None
            },
            None,
        ),
    }
}

/// The state of one subject after a row of observations, and its events.
pub open spec fn follow(rule: RuleView, row: Seq<Moment>) -> (Option<StateView>, Seq<EventView>)
    decreases row.len(),
{
    if row.len() == 0 {
        (None, seq![])
    } else {
        let (st, events) = follow(rule, row.drop_last());
        let o = row.last();
        let (next, e) = passed(st, rule, o);
        (next, noted(events, e))
    }
}

/// Whether there is a state, and it is in `phase`.
pub open spec fn in_phase(st: Option<StateView>, phase: Phase) -> bool {
    st is Some && st->0.phase == phase
}

/// Whether every value from position `j` on breaches the threshold.
pub open spec fn breach_from(rule: RuleView, row: Seq<Moment>, j: int) -> bool {
    &&& 0 <= j < row.len()
    &&& forall|k: int| j <= k < row.len() ==> breached_at(rule, #[trigger] row[k])
}

/// Whether time does not run backwards.
pub open spec fn in_time(row: Seq<Moment>) -> bool {
    forall|i: int, j: int|
        0 <= i <= j < row.len() ==> (#[trigger] row[i]).now.nanos <= (#[trigger] row[j]).now.nanos
}

proof fn lemma_pending(rule: RuleView, row: Seq<Moment>)
    ensures
        in_phase(follow(rule, row).0, Phase::Pending) ==> exists|j: int|
            breach_from(rule, row, j) && (#[trigger] row[j]).now == follow(rule, row).0->0.since,
    decreases row.len(),
{
    if row.len() > 0 {
        let before = row.drop_last();
        lemma_pending(rule, before);
        let n = row.len() - 1;
        match follow(rule, row).0 {
            Some(s) => {
                if s.phase == Phase::Pending {
                    match follow(rule, before).0 {
                        Some(t) => {
                            let j = choose|j: int|
                                breach_from(rule, before, j) && (#[trigger] before[j]).now == t.since;
                            assert forall|k: int| j <= k < row.len() implies breached_at(
                                rule,
                                #[trigger] row[k],
                            ) by {
                                if k < n {
                                    assert(before[k] == row[k]);
                                }
                            }
                            assert(row[j] == before[j]);
                            assert(breach_from(rule, row, j) && row[j].now == s.since);
                        },
                        None => {
                            assert(breach_from(rule, row, n) && row[n].now == s.since);
                        },
                    }
                }
            },
            None => {},
        }
    }
}

/// Whether the last observation fires the alert.
pub open spec fn fires_at_last(rule: RuleView, row: Seq<Moment>) -> bool {
    &&& row.len() > 0
    &&& follow(rule, row).1.len() > follow(rule, row.drop_last()).1.len()
    &&& follow(rule, row).1.last().kind == EventKind::Fired
}

/// An alert fires only when the condition has held, without a break, for at
/// least the duration of its rule, and reports for how long.
pub proof fn law_only_a_sustained_breach_fires(rule: RuleView, row: Seq<Moment>)
    requires
        fires_at_last(rule, row),
    ensures
        exists|j: int|
            breach_from(rule, row, j) && #[trigger] row.last().now.since(row[j].now).nanos
                >= rule.sustain.nanos && follow(rule, row).1.last().held_for == row.last().now.since(
                row[j].now,
            ),
{
    let before = row.drop_last();
    let n = row.len() - 1;
    lemma_pending(rule, before);
    match follow(rule, before).0 {
        Some(t) => {
            let j = choose|j: int| breach_from(rule, before, j) && (#[trigger] before[j]).now == t.since;
            assert forall|k: int| j <= k < row.len() implies breached_at(rule, #[trigger] row[k]) by {
                if k < n {
                    assert(before[k] == row[k]);
                }
            }
            assert(row[j] == before[j]);
            assert(breach_from(rule, row, j));
            assert(row.last().now.since(row[j].now).nanos >= rule.sustain.nanos);
        },
        None => {
            assert(breach_from(rule, row, n));
            assert(row.last().now.since(row[n].now).nanos >= rule.sustain.nanos);
        },
    }
}

proof fn lemma_breach_counts(rule: RuleView, row: Seq<Moment>, j: int)
    requires
        steady(rule),
        in_time(row),
        breach_from(rule, row, j),
    ensures
        follow(rule, row).0 is Some,
        in_phase(follow(rule, row).0, Phase::Firing) || follow(rule, row).0->0.since.nanos
            <= row[j].now.nanos,
    decreases row.len(),
{
    let before = row.drop_last();
    let n = row.len() - 1;
    assert(breached_at(rule, row[n]));
    assert(rule.held_by(row[n].value->0));
    if j < n {
        assert forall|a: int, b: int| 0 <= a <= b < before.len() implies (#[trigger] before[a]).now.nanos
            <= (#[trigger] before[b]).now.nanos by {
            assert(row[a].now.nanos <= row[b].now.nanos);
        }
        assert forall|k: int| j <= k < before.len() implies breached_at(rule, #[trigger] before[k]) by {
            assert(before[k] == row[k]);
        }
        lemma_breach_counts(rule, before, j);
    } else {
        lemma_pending(rule, before);
        match follow(rule, before).0 {
            Some(t) => {
                if t.phase == Phase::Pending {
                    let i = choose|i: int|
                        breach_from(rule, before, i) && (#[trigger] before[i]).now == t.since;
                    assert(before[i] == row[i]);
                    assert(row[i].now.nanos <= row[j].now.nanos);
                }
            },
            None => {},
        }
    }
}

/// A condition that has held, without a break, for the duration of its rule
/// has the alert active.
pub proof fn law_a_sustained_breach_fires(rule: RuleView, row: Seq<Moment>, j: int)
    requires
        steady(rule),
        in_time(row),
        breach_from(rule, row, j),
        row.last().now.since(row[j].now).nanos >= rule.sustain.nanos,
    ensures
        in_phase(follow(rule, row).0, Phase::Firing),
{
    let before = row.drop_last();
    let n = row.len() - 1;
    lemma_breach_counts(rule, row, j);
    assert(row[j].now.nanos <= row[n].now.nanos);
    assert(breached_at(rule, row[n]));
    assert(rule.held_by(row[n].value->0));
}

/// A breach that ends before the duration of its rule, or is no longer known
/// because the value could not be read, leaves no trace: no event, and the next
/// breach starts from scratch.
pub proof fn law_a_transient_leaves_no_trace(st: StateView, rule: RuleView, o: Moment)
    requires
        st.phase == Phase::Pending,
        !breached_at(rule, o),
    ensures
        passed(Some(st), rule, o) == (None::<StateView>, None::<EventView>),
{
}

/// While an alert is active and the value has not come back past the clear
/// value nothing is reported, and the alert stays active since the same
/// instant; when the value has, the alert clears.
pub proof fn law_an_active_alert_clears_only_past_the_clear_value(st: StateView, rule: RuleView, o: Moment)
    requires
        st.phase == Phase::Firing,
    ensures
        ({
            let (next, e) = passed(Some(st), rule, o);
            if held_at(rule, o) {
                e is None && next is Some && next->0.phase == Phase::Firing && next->0.since == st.since
            } else {
                next is None && e is Some && e->0.kind == EventKind::Cleared
            }
        }),
{
}

/// A value that wobbles without coming back past the clear value is silent:
/// once the alert is active nothing more is reported.
pub proof fn law_a_wobble_in_the_deadband_is_silent(rule: RuleView, row: Seq<Moment>, wobble: Seq<Moment>)
    requires
        in_phase(follow(rule, row).0, Phase::Firing),
        forall|k: int| 0 <= k < wobble.len() ==> held_at(rule, #[trigger] wobble[k]),
    ensures
        follow(rule, row + wobble).1 == follow(rule, row).1,
        in_phase(follow(rule, row + wobble).0, Phase::Firing),
    decreases wobble.len(),
{
    if wobble.len() == 0 {
        assert(row + wobble =~= row);
    } else {
        let less = wobble.drop_last();
        assert forall|k: int| 0 <= k < less.len() implies held_at(rule, #[trigger] less[k]) by {
            assert(less[k] == wobble[k]);
        }
        law_a_wobble_in_the_deadband_is_silent(rule, row, less);
        assert((row + wobble).drop_last() =~= row + less);
        assert((row + wobble).last() == wobble[wobble.len() - 1]);
    }
}

/// Fired and cleared alternate, starting with fired: no alert fires twice
/// without clearing between, and none clears that did not fire.
pub proof fn law_fired_and_cleared_alternate(rule: RuleView, row: Seq<Moment>)
    ensures
        ({
            let (st, events) = follow(rule, row);
            &&& forall|i: int|
                0 <= i < events.len() ==> (#[trigger] events[i]).kind == if i % 2 == 0 {
                    EventKind::Fired
                } else {
                    EventKind::Cleared
                }
            &&& events.len() % 2 == 1 <==> in_phase(st, Phase::Firing)
        }),
    decreases row.len(),
{
    if row.len() > 0 {
        law_fired_and_cleared_alternate(rule, row.drop_last());
    }
}

// ------------------------------------------------------------- evaluations --

/// Whether every process of a snapshot is in it once.
pub open spec fn processes_once(snap: SnapshotView) -> bool {
    forall|i: int, j: int|
        0 <= i < j < snap.procs.len() ==> (#[trigger] snap.procs[i]).key != (#[trigger] snap.procs[j]).key
}

/// Whether `id` was observed.
pub open spec fn was_observed(obs: Seq<Observed>, id: SubjectId) -> bool {
    exists|i: int| 0 <= i < obs.len() && (#[trigger] obs[i]).id == id
}

proof fn lemma_observed_process(ri: int, rule: RuleView, procs: Seq<ProcRateView>, i: int)
    requires
        0 <= i < observed_processes(ri, rule, procs).len(),
    ensures
        exists|k: int|
            0 <= k < procs.len() && observed_processes(ri, rule, procs)[i].id == process_id(
                ri,
                #[trigger] procs[k],
            ) && process_value(rule, procs[k]) == Some(observed_processes(ri, rule, procs)[i].value),
    decreases procs.len(),
{
    if procs.len() > 0 {
        let rest = procs.drop_last();
        let before = observed_processes(ri, rule, rest);
        if i < before.len() {
            lemma_observed_process(ri, rule, rest, i);
            let k = choose|k: int|
                0 <= k < rest.len() && before[i].id == process_id(ri, #[trigger] rest[k])
                    && process_value(rule, rest[k]) == Some(before[i].value);
            assert(procs[k] == rest[k]);
        } else {
            assert(procs[procs.len() - 1] == procs.last());
        }
    }
}

proof fn lemma_observed_processes_once(ri: int, rule: RuleView, procs: Seq<ProcRateView>, i: int, j: int)
    requires
        forall|a: int, b: int|
            0 <= a < b < procs.len() ==> (#[trigger] procs[a]).key != (#[trigger] procs[b]).key,
        0 <= i < j < observed_processes(ri, rule, procs).len(),
    ensures
        observed_processes(ri, rule, procs)[i].id != observed_processes(ri, rule, procs)[j].id,
    decreases procs.len(),
{
    if procs.len() > 0 {
        let rest = procs.drop_last();
        let before = observed_processes(ri, rule, rest);
        assert forall|a: int, b: int| 0 <= a < b < rest.len() implies (#[trigger] rest[a]).key != (
        #[trigger] rest[b]).key by {
            assert(rest[a] == procs[a] && rest[b] == procs[b]);
        }
        if j < before.len() {
            lemma_observed_processes_once(ri, rule, rest, i, j);
        } else {
            lemma_observed_process(ri, rule, rest, i);
            let k = choose|k: int|
                0 <= k < rest.len() && before[i].id == process_id(ri, #[trigger] rest[k])
                    && process_value(rule, rest[k]) == Some(before[i].value);
            assert(rest[k] == procs[k]);
            assert(procs[k].key != procs[procs.len() - 1].key);
        }
    }
}

proof fn lemma_observed_rule(rules: Seq<RuleView>, snap: SnapshotView, i: int)
    requires
        0 <= i < observed(rules, snap).len(),
        rules.len() <= usize::MAX,
    ensures
        observed(rules, snap)[i].id.rule < rules.len(),
    decreases rules.len(),
{
    if rules.len() > 0 {
        let before = observed(rules.drop_last(), snap);
        let ri = rules.len() - 1;
        if i < before.len() {
            lemma_observed_rule(rules.drop_last(), snap, i);
        } else {
            let own = observed_by(ri, rules.last(), snap);
            assert(observed(rules, snap)[i] == own[i - before.len()]);
            if rules.last().target is Process {
                lemma_observed_process(ri, rules.last(), snap.procs, i - before.len());
            }
        }
    }
}

/// In one evaluation every rule observes every subject at most once.
pub proof fn law_subjects_are_observed_once(rules: Seq<RuleView>, snap: SnapshotView, i: int, j: int)
    requires
        processes_once(snap),
        rules.len() <= usize::MAX,
        0 <= i < j < observed(rules, snap).len(),
    ensures
        observed(rules, snap)[i].id != observed(rules, snap)[j].id,
    decreases rules.len(),
{
    if rules.len() > 0 {
        let before = observed(rules.drop_last(), snap);
        let ri = rules.len() - 1;
        let own = observed_by(ri, rules.last(), snap);
        if j < before.len() {
            law_subjects_are_observed_once(rules.drop_last(), snap, i, j);
        } else {
            let b = j - before.len();
            assert(observed(rules, snap)[j] == own[b]);
            if rules.last().target is Process {
                lemma_observed_process(ri, rules.last(), snap.procs, b);
            }
            if i < before.len() {
                lemma_observed_rule(rules.drop_last(), snap, i);
            } else {
                assert(observed(rules, snap)[i] == own[i - before.len()]);
                lemma_observed_processes_once(ri, rules.last(), snap.procs, i - before.len(), b);
            }
        }
    }
}

/// No rule observes a brand new process, nor one that it does not watch.
pub proof fn law_new_processes_never_alert(rules: Seq<RuleView>, snap: SnapshotView, i: int)
    requires
        rules.len() <= usize::MAX,
        0 <= i < observed(rules, snap).len(),
        observed(rules, snap)[i].id.proc_key is Some,
    ensures
        ({
            let o = observed(rules, snap)[i];
            exists|k: int|
                0 <= k < snap.procs.len() && o.id == process_id(o.id.rule as int, #[trigger] snap.procs[k])
                    && !snap.procs[k].is_new && rules[o.id.rule as int].target.watches(snap.procs[k].comm)
        }),
    decreases rules.len(),
{
    if rules.len() > 0 {
        let less = rules.drop_last();
        let before = observed(less, snap);
        let ri = rules.len() - 1;
        let o = observed(rules, snap)[i];
        if i < before.len() {
            law_new_processes_never_alert(less, snap, i);
            lemma_observed_rule(less, snap, i);
            assert(less[o.id.rule as int] == rules[o.id.rule as int]);
        } else {
            let own = observed_by(ri, rules.last(), snap);
            assert(o == own[i - before.len()]);
            lemma_observed_process(ri, rules.last(), snap.procs, i - before.len());
        }
    }
}

proof fn lemma_value_observed(ri: int, rule: RuleView, procs: Seq<ProcRateView>, k: int)
    requires
        0 <= k < procs.len(),
        process_value(rule, procs[k]) is Some,
    ensures
        was_observed(observed_processes(ri, rule, procs), process_id(ri, procs[k])),
    decreases procs.len(),
{
    let rest = procs.drop_last();
    let own = observed_processes(ri, rule, procs);
    let id = process_id(ri, procs[k]);
    if k == rest.len() {
        assert(own[own.len() - 1].id == id);
    } else {
        lemma_value_observed(ri, rule, rest, k);
        let before = observed_processes(ri, rule, rest);
        let i = choose|i: int| 0 <= i < before.len() && (#[trigger] before[i]).id == id;
        assert(own[i].id == id);
    }
}

/// Every rule observes each process that it watches, was there before and has a
/// value that could be read.
pub proof fn law_values_that_are_read_are_observed(rules: Seq<RuleView>, snap: SnapshotView, ri: int, k: int)
    requires
        0 <= ri < rules.len() <= usize::MAX,
        0 <= k < snap.procs.len(),
        process_value(rules[ri], snap.procs[k]) is Some,
    ensures
        was_observed(observed(rules, snap), process_id(ri, snap.procs[k])),
    decreases rules.len(),
{
    let less = rules.drop_last();
    let before = observed(less, snap);
    let all = observed(rules, snap);
    let id = process_id(ri, snap.procs[k]);
    if ri < less.len() {
        law_values_that_are_read_are_observed(less, snap, ri, k);
        let i = choose|i: int| 0 <= i < before.len() && (#[trigger] before[i]).id == id;
        assert(all[i].id == id);
    } else {
        lemma_value_observed(ri, rules.last(), snap.procs, k);
        let own = observed_by(ri, rules.last(), snap);
        let i = choose|i: int| 0 <= i < own.len() && (#[trigger] own[i]).id == id;
        assert(all[before.len() + i].id == id);
    }
}

/// Counters that could not be read are not taken for zero: a rule on them
/// observes nothing.
pub proof fn law_unreadable_counters_never_alert(rule: RuleView, p: ProcRateView)
    requires
        rule.metric == Metric::ReadBps && p.read_bps is None || rule.metric == Metric::WriteBps
            && p.write_bps is None,
    ensures
        process_value(rule, p) is None,
{
}

pub proof fn lemma_run_leaves(
    rules: Seq<RuleView>,
    states: Map<SubjectId, StateView>,
    obs: Seq<Observed>,
    now: Instant,
    tick: u64,
    id: SubjectId,
)
    requires
        !was_observed(obs, id),
    ensures
        lookup(run(rules, states, obs, now, tick).0, id) == lookup(states, id),
    decreases obs.len(),
{
    if obs.len() > 0 {
        let before = obs.drop_last();
        if was_observed(before, id) {
            let i = choose|i: int| 0 <= i < before.len() && (#[trigger] before[i]).id == id;
            assert(obs[i].id == id);
        }
        assert(obs[obs.len() - 1].id != id);
        lemma_run_leaves(rules, states, before, now, tick, id);
    }
}

/// What becomes of a subject depends on its own state and value alone: it moves
/// on as if nothing else were observed.
pub proof fn law_subjects_are_independent(
    rules: Seq<RuleView>,
    states: Map<SubjectId, StateView>,
    obs: Seq<Observed>,
    now: Instant,
    tick: u64,
    i: int,
)
    requires
        0 <= i < obs.len(),
        forall|j: int| 0 <= j < obs.len() && j != i ==> (#[trigger] obs[j]).id != obs[i].id,
    ensures
        lookup(run(rules, states, obs, now, tick).0, obs[i].id) == advance(
            lookup(states, obs[i].id),
            rules[obs[i].id.rule as int],
            obs[i].label,
            obs[i].value,
            now,
            tick,
        ).0,
    decreases obs.len(),
{
    let before = obs.drop_last();
    let id = obs[i].id;
    if i == obs.len() - 1 {
        if was_observed(before, id) {
            let j = choose|j: int| 0 <= j < before.len() && (#[trigger] before[j]).id == id;
            assert(obs[j].id == id);
        }
        lemma_run_leaves(rules, states, before, now, tick, id);
    } else {
        assert(before[i] == obs[i]);
        assert forall|j: int| 0 <= j < before.len() && j != i implies (#[trigger] before[j]).id
            != before[i].id by {
            assert(before[j] == obs[j]);
        }
        law_subjects_are_independent(rules, states, before, now, tick, i);
        assert(obs[obs.len() - 1].id != id);
    }
}

/// A value at the clear value has not come back past it: an active alert stays.
pub proof fn law_the_clear_value_itself_does_not_clear(rule: RuleView)
    ensures
        rule.held_by(rule.clear),
{
}

/// An alert never outlives its subject: one that was not observed and whose
/// process is not there, or not watched any more, has no state after the
/// evaluation, and if its alert was active exactly that is reported as cleared
/// because the subject is gone.
pub proof fn law_no_alert_latches(e: EngineView, snap: SnapshotView, now: Instant, id: SubjectId)
    requires
        states_fit(e.states, e.rules.len(), e.tick),
        e.tick < u64::MAX,
        !was_observed(observed(e.rules, snap), id),
        !watched(e.rules[id.rule as int], snap.procs, id),
    ensures
        !e.evaluated(snap, now).states.contains_key(id),
        ({
            let tick = (e.tick + 1) as u64;
            let m = run(e.rules, e.states, observed(e.rules, snap), now, tick).0;
            is_left(m, tick, e.rules, snap.procs, id) <==> e.fires(id)
        }),
{
    let tick = (e.tick + 1) as u64;
    let obs = observed(e.rules, snap);
    lemma_run_leaves(e.rules, e.states, obs, now, tick, id);
    let m = run(e.rules, e.states, obs, now, tick).0;
    if m.contains_key(id) {
        assert(lookup(m, id) == Some(m[id]));
        assert(e.states.contains_key(id));
    }
    if e.states.contains_key(id) {
        assert(lookup(m, id) is Some);
    }
}

/// An active alert is never reported as gone while its process is there and
/// watched: where its value could not be read it stays as it is.
pub proof fn law_an_alert_stays_with_its_process(e: EngineView, snap: SnapshotView, now: Instant, id: SubjectId)
    requires
        states_fit(e.states, e.rules.len(), e.tick),
        e.tick < u64::MAX,
        !was_observed(observed(e.rules, snap), id),
        watched(e.rules[id.rule as int], snap.procs, id),
    ensures
        lookup(e.evaluated(snap, now).states, id) == if e.fires(id) {
            lookup(e.states, id)
        } else {
            None
        },
        ({
            let tick = (e.tick + 1) as u64;
            let m = run(e.rules, e.states, observed(e.rules, snap), now, tick).0;
            !is_left(m, tick, e.rules, snap.procs, id)
        }),
{
    let tick = (e.tick + 1) as u64;
    let obs = observed(e.rules, snap);
    lemma_run_leaves(e.rules, e.states, obs, now, tick, id);
    let m = run(e.rules, e.states, obs, now, tick).0;
    if m.contains_key(id) {
        assert(lookup(m, id) == Some(m[id]));
        assert(e.states.contains_key(id));
    }
    if e.states.contains_key(id) {
        assert(lookup(m, id) is Some);
    }
}

/// A subject that was observed moves on from its own state: after the
/// evaluation it has exactly the state that its value takes it to.
pub proof fn law_observed_subjects_move_on(e: EngineView, snap: SnapshotView, now: Instant, i: int)
    requires
        states_fit(e.states, e.rules.len(), e.tick),
        e.tick < u64::MAX,
        e.rules.len() <= usize::MAX,
        processes_once(snap),
        0 <= i < observed(e.rules, snap).len(),
    ensures
        ({
            let o = observed(e.rules, snap)[i];
            lookup(e.evaluated(snap, now).states, o.id) == advance(
                lookup(e.states, o.id),
                e.rules[o.id.rule as int],
                o.label,
                o.value,
                now,
                (e.tick + 1) as u64,
            ).0
        }),
{
    let tick = (e.tick + 1) as u64;
    let obs = observed(e.rules, snap);
    let o = obs[i];
    assert forall|j: int| 0 <= j < obs.len() && j != i implies (#[trigger] obs[j]).id != obs[i].id by {
        if j < i {
            law_subjects_are_observed_once(e.rules, snap, j, i);
        } else {
            law_subjects_are_observed_once(e.rules, snap, i, j);
        }
    }
    law_subjects_are_independent(e.rules, e.states, obs, now, tick, i);
    let m = run(e.rules, e.states, obs, now, tick).0;
    let next = advance(lookup(e.states, o.id), e.rules[o.id.rule as int], o.label, o.value, now, tick).0;
    assert(lookup(m, o.id) == next);
    if m.contains_key(o.id) {
        assert(m[o.id].seen == tick);
    }
}

/// The rates between two samples hold every process once.
pub proof fn law_snapshots_hold_processes_once(
    s: Snapshot,
    prev: SampleView,
    cur: SampleView,
    consts: SysConst,
)
    requires
        lists_rates(s.procs@, prev, cur, consts),
    ensures
        processes_once(s@),
{
    assert forall|i: int, j: int| 0 <= i < j < s@.procs.len() implies (#[trigger] s@.procs[i]).key != (
    #[trigger] s@.procs[j]).key by {
        assert(s.procs@[i].key != s.procs@[j].key);
    }
}

/// Every event that the rules report while observing is what the value of one
/// subject makes of its own state.
pub proof fn law_events_are_those_of_subjects(
    rules: Seq<RuleView>,
    states: Map<SubjectId, StateView>,
    obs: Seq<Observed>,
    now: Instant,
    tick: u64,
    k: int,
)
    requires
        forall|i: int, j: int| 0 <= i < j < obs.len() ==> (#[trigger] obs[i]).id != (#[trigger] obs[j]).id,
        0 <= k < run(rules, states, obs, now, tick).1.len(),
    ensures
        exists|i: int|
            0 <= i < obs.len() && advance(
                lookup(states, (#[trigger] obs[i]).id),
                rules[obs[i].id.rule as int],
                obs[i].label,
                obs[i].value,
                now,
                tick,
            ).1 == Some(run(rules, states, obs, now, tick).1[k]),
    decreases obs.len(),
{
    if obs.len() > 0 {
        let before = obs.drop_last();
        let n = obs.len() - 1;
        let e = run(rules, states, obs, now, tick).1[k];
        assert forall|i: int, j: int| 0 <= i < j < before.len() implies (#[trigger] before[i]).id != (
        #[trigger] before[j]).id by {
            assert(before[i] == obs[i] && before[j] == obs[j]);
        }
        if k < run(rules, states, before, now, tick).1.len() {
            law_events_are_those_of_subjects(rules, states, before, now, tick, k);
            let i = choose|i: int|
                0 <= i < before.len() && advance(
                    lookup(states, (#[trigger] before[i]).id),
                    rules[before[i].id.rule as int],
                    before[i].label,
                    before[i].value,
                    now,
                    tick,
                ).1 == Some(e);
            assert(obs[i] == before[i]);
        } else {
            if was_observed(before, obs[n].id) {
                let j = choose|j: int| 0 <= j < before.len() && (#[trigger] before[j]).id == obs[n].id;
                assert(obs[j].id != obs[n].id);
            }
            lemma_run_leaves(rules, states, before, now, tick, obs[n].id);
            assert(obs[n] == obs.last());
        }
    }
}

// ------------------------------------------------- evaluations in time --

/// One evaluation: what there was, and when.
pub struct Look {
    pub snap: SnapshotView,
    pub now: Instant,
}

/// The engine after a row of evaluations.
pub open spec fn evaluations(e: EngineView, looks: Seq<Look>) -> EngineView
    decreases looks.len(),
{
    if looks.len() == 0 {
        e
    } else {
        evaluations(e, looks.drop_last()).evaluated(looks.last().snap, looks.last().now)
    }
}

/// What was observed of `id`, if it was.
pub open spec fn observation(obs: Seq<Observed>, id: SubjectId) -> Option<Observed>
    decreases obs.len(),
{
    if obs.len() == 0 {
        None
    } else if obs.last().id == id {
        Some(obs.last())
    } else {
        observation(obs.drop_last(), id)
    }
}

/// The observations of `id` since it was last absent: neither observed nor the
/// key of a process that its rule watches.
pub open spec fn row_of(e: EngineView, looks: Seq<Look>, id: SubjectId) -> Seq<Moment>
    decreases looks.len(),
{
    if looks.len() == 0 {
        seq![]
    } else {
        match observation(observed(e.rules, looks.last().snap), id) {
            Some(o) => row_of(e, looks.drop_last(), id).push(
                Moment {
                    label: o.label,
                    value: Some(o.value),
                    now: looks.last().now,
                    tick: (e.tick + looks.len()) as u64,
                },
            ),
            None => if watched(e.rules[id.rule as int], looks.last().snap.procs, id) {
                row_of(e, looks.drop_last(), id).push(
                    Moment {
                        label: seq![],
                        value: None,
                        now: looks.last().now,
                        tick: (e.tick + looks.len()) as u64,
                    },
                )
            } else {
                seq![]
            },
        }
    }
}

pub proof fn lemma_observation(obs: Seq<Observed>, id: SubjectId)
    ensures
        match observation(obs, id) {
            Some(o) => o.id == id && exists|i: int| 0 <= i < obs.len() && #[trigger] obs[i] == o,
            None => !was_observed(obs, id),
        },
    decreases obs.len(),
{
    if obs.len() > 0 {
        let before = obs.drop_last();
        let n = obs.len() - 1;
        lemma_observation(before, id);
        if obs.last().id == id {
            assert(obs[n] == obs.last());
        } else {
            match observation(before, id) {
                Some(o) => {
                    let i = choose|i: int| 0 <= i < before.len() && #[trigger] before[i] == o;
                    assert(obs[i] == o);
                },
                None => {
                    if was_observed(obs, id) {
                        let i = choose|i: int| 0 <= i < obs.len() && (#[trigger] obs[i]).id == id;
                        assert(before[i].id == id);
                    }
                },
            }
        }
    }
}

proof fn lemma_run_fits(
    rules: Seq<RuleView>,
    states: Map<SubjectId, StateView>,
    obs: Seq<Observed>,
    now: Instant,
    tick: u64,
)
    requires
        states_fit(states, rules.len(), tick),
        forall|i: int| 0 <= i < obs.len() ==> (#[trigger] obs[i]).id.rule < rules.len(),
    ensures
        states_fit(run(rules, states, obs, now, tick).0, rules.len(), tick),
    decreases obs.len(),
{
    if obs.len() > 0 {
        let before = obs.drop_last();
        assert forall|i: int| 0 <= i < before.len() implies (#[trigger] before[i]).id.rule < rules.len() by {
            assert(before[i] == obs[i]);
        }
        assert(obs[obs.len() - 1].id.rule < rules.len());
        lemma_run_fits(rules, states, before, now, tick);
    }
}

proof fn lemma_evaluations_fit(e: EngineView, looks: Seq<Look>)
    requires
        states_fit(e.states, e.rules.len(), e.tick),
        e.rules.len() <= usize::MAX,
        e.tick + looks.len() <= u64::MAX,
    ensures
        ({
            let a = evaluations(e, looks);
            &&& a.rules == e.rules
            &&& a.tick == e.tick + looks.len()
            &&& states_fit(a.states, a.rules.len(), a.tick)
        }),
    decreases looks.len(),
{
    if looks.len() > 0 {
        let b = evaluations(e, looks.drop_last());
        lemma_evaluations_fit(e, looks.drop_last());
        let snap = looks.last().snap;
        let tick = (b.tick + 1) as u64;
        let obs = observed(b.rules, snap);
        assert forall|i: int| 0 <= i < obs.len() implies (#[trigger] obs[i]).id.rule < b.rules.len() by {
            lemma_observed_rule(b.rules, snap, i);
        }
        lemma_run_fits(b.rules, b.states, obs, looks.last().now, tick);
    }
}

/// An event and the subject that it is about.
pub type Tagged = (SubjectId, EventView);

/// The events of the observations, each with its subject.
pub open spec fn tagged(
    rules: Seq<RuleView>,
    states: Map<SubjectId, StateView>,
    obs: Seq<Observed>,
    now: Instant,
    tick: u64,
) -> Seq<Tagged>
    decreases obs.len(),
{
    if obs.len() == 0 {
        seq![]
    } else {
        let before = obs.drop_last();
        let o = obs.last();
        let m = run(rules, states, before, now, tick).0;
        match advance(lookup(m, o.id), rules[o.id.rule as int], o.label, o.value, now, tick).1 {
            Some(e) => tagged(rules, states, before, now, tick).push((o.id, e)),
            None => tagged(rules, states, before, now, tick),
        }
    }
}

/// The events without their subjects.
pub open spec fn untagged(v: Seq<Tagged>) -> Seq<EventView> {
    Seq::new(v.len(), |i: int| v[i].1)
}

/// The events that are about `id`.
pub open spec fn about(v: Seq<Tagged>, id: SubjectId) -> Seq<EventView>
    decreases v.len(),
{
    if v.len() == 0 {
        seq![]
    } else if v.last().0 == id {
        about(v.drop_last(), id).push(v.last().1)
    } else {
        about(v.drop_last(), id)
    }
}

/// The events that an evaluation of `e` reports of `id`: what its value makes of
/// its state, and that it is gone.
pub open spec fn reported_of(e: EngineView, look: Look, id: SubjectId) -> Seq<EventView> {
    let tick = (e.tick + 1) as u64;
    let obs = observed(e.rules, look.snap);
    let m = run(e.rules, e.states, obs, look.now, tick).0;
    let seen = about(tagged(e.rules, e.states, obs, look.now, tick), id);
    if is_left(m, tick, e.rules, look.snap.procs, id) {
        seen.push(gone_event(e.rules, m, id, look.now))
    } else {
        seen
    }
}

/// The events that the evaluations report of `id`.
pub open spec fn history(e: EngineView, looks: Seq<Look>, id: SubjectId) -> Seq<EventView>
    decreases looks.len(),
{
    if looks.len() == 0 {
        seq![]
    } else {
        history(e, looks.drop_last(), id) + reported_of(
            evaluations(e, looks.drop_last()),
            looks.last(),
            id,
        )
    }
}

/// The events that the evaluations report of `id` since it was last absent.
pub open spec fn history_of_row(e: EngineView, looks: Seq<Look>, id: SubjectId) -> Seq<EventView>
    decreases looks.len(),
{
    if looks.len() == 0 {
        seq![]
    } else if observation(observed(e.rules, looks.last().snap), id) is None && !watched(
        e.rules[id.rule as int],
        looks.last().snap.procs,
        id,
    ) {
        seq![]
    } else {
        history_of_row(e, looks.drop_last(), id) + reported_of(
            evaluations(e, looks.drop_last()),
            looks.last(),
            id,
        )
    }
}

/// The events with their subjects are the events that an evaluation reports of
/// what the rules observed.
pub proof fn law_events_have_their_subjects(
    rules: Seq<RuleView>,
    states: Map<SubjectId, StateView>,
    obs: Seq<Observed>,
    now: Instant,
    tick: u64,
)
    ensures
        untagged(tagged(rules, states, obs, now, tick)) == run(rules, states, obs, now, tick).1,
    decreases obs.len(),
{
    if obs.len() > 0 {
        law_events_have_their_subjects(rules, states, obs.drop_last(), now, tick);
    }
    assert(untagged(tagged(rules, states, obs, now, tick)) =~= run(rules, states, obs, now, tick).1);
}

proof fn lemma_about_unobserved(
    rules: Seq<RuleView>,
    states: Map<SubjectId, StateView>,
    obs: Seq<Observed>,
    now: Instant,
    tick: u64,
    id: SubjectId,
)
    requires
        !was_observed(obs, id),
    ensures
        about(tagged(rules, states, obs, now, tick), id) == Seq::<EventView>::empty(),
    decreases obs.len(),
{
    if obs.len() > 0 {
        let before = obs.drop_last();
        if was_observed(before, id) {
            let i = choose|i: int| 0 <= i < before.len() && (#[trigger] before[i]).id == id;
            assert(obs[i].id == id);
        }
        assert(obs[obs.len() - 1].id != id);
        lemma_about_unobserved(rules, states, before, now, tick, id);
        let all = tagged(rules, states, obs, now, tick);
        let v = tagged(rules, states, before, now, tick);
        if all != v {
            assert(all.drop_last() =~= v);
        }
    }
}

proof fn lemma_about_observed(
    rules: Seq<RuleView>,
    states: Map<SubjectId, StateView>,
    obs: Seq<Observed>,
    now: Instant,
    tick: u64,
    i: int,
)
    requires
        0 <= i < obs.len(),
        forall|j: int| 0 <= j < obs.len() && j != i ==> (#[trigger] obs[j]).id != obs[i].id,
    ensures
        about(tagged(rules, states, obs, now, tick), obs[i].id) == noted(
            seq![],
            advance(
                lookup(states, obs[i].id),
                rules[obs[i].id.rule as int],
                obs[i].label,
                obs[i].value,
                now,
                tick,
            ).1,
        ),
    decreases obs.len(),
{
    let before = obs.drop_last();
    let id = obs[i].id;
    let all = tagged(rules, states, obs, now, tick);
    let v = tagged(rules, states, before, now, tick);
    if all != v {
        assert(all.drop_last() =~= v);
    }
    if i == obs.len() - 1 {
        if was_observed(before, id) {
            let j = choose|j: int| 0 <= j < before.len() && (#[trigger] before[j]).id == id;
            assert(obs[j].id == id);
        }
        lemma_run_leaves(rules, states, before, now, tick, id);
        lemma_about_unobserved(rules, states, before, now, tick, id);
    } else {
        assert(before[i] == obs[i]);
        assert forall|j: int| 0 <= j < before.len() && j != i implies (#[trigger] before[j]).id
            != before[i].id by {
            assert(before[j] == obs[j]);
        }
        lemma_about_observed(rules, states, before, now, tick, i);
        assert(obs[obs.len() - 1].id != id);
    }
}

/// In one evaluation a subject that was observed has the event that its value
/// makes of its state, if any. One that was not has none, but that an active
/// alert is gone with its subject.
pub proof fn law_each_subject_has_its_own_events(e: EngineView, look: Look, id: SubjectId)
    requires
        states_fit(e.states, e.rules.len(), e.tick),
        e.tick < u64::MAX,
        e.rules.len() <= usize::MAX,
        processes_once(look.snap),
    ensures
        reported_of(e, look, id) == match observation(observed(e.rules, look.snap), id) {
            Some(o) => noted(
                seq![],
                advance(
                    lookup(e.states, id),
                    e.rules[id.rule as int],
                    o.label,
                    o.value,
                    look.now,
                    (e.tick + 1) as u64,
                ).1,
            ),
            None => if e.fires(id) && !watched(e.rules[id.rule as int], look.snap.procs, id) {
                seq![gone_event(e.rules, e.states, id, look.now)]
            } else {
                seq![]
            },
        },
{
    let tick = (e.tick + 1) as u64;
    let obs = observed(e.rules, look.snap);
    let m = run(e.rules, e.states, obs, look.now, tick).0;
    lemma_observation(obs, id);
    match observation(obs, id) {
        Some(o) => {
            let i = choose|i: int| 0 <= i < obs.len() && #[trigger] obs[i] == o;
            assert forall|j: int| 0 <= j < obs.len() && j != i implies (#[trigger] obs[j]).id
                != obs[i].id by {
                if j < i {
                    law_subjects_are_observed_once(e.rules, look.snap, j, i);
                } else {
                    law_subjects_are_observed_once(e.rules, look.snap, i, j);
                }
            }
            lemma_about_observed(e.rules, e.states, obs, look.now, tick, i);
            law_subjects_are_independent(e.rules, e.states, obs, look.now, tick, i);
            if m.contains_key(id) {
                assert(lookup(m, id) == Some(m[id]));
                assert(m[id].seen == tick);
            }
        },
        None => {
            lemma_about_unobserved(e.rules, e.states, obs, look.now, tick, id);
            lemma_run_leaves(e.rules, e.states, obs, look.now, tick, id);
            if m.contains_key(id) {
                assert(lookup(m, id) == Some(m[id]));
                assert(e.states.contains_key(id));
            }
            if e.states.contains_key(id) {
                assert(lookup(m, id) is Some);
            }
            assert(reported_of(e, look, id) =~= if e.fires(id) && !watched(
                e.rules[id.rule as int],
                look.snap.procs,
                id,
            ) {
                seq![gone_event(e.rules, e.states, id, look.now)]
            } else {
                seq![]
            });
        },
    }
}

/// Whatever else goes on, the engine keeps and reports of each subject exactly
/// what its own observations make of it since it was last absent. What holds of
/// one subject in time therefore holds of every subject of an engine.
pub proof fn law_the_engine_follows_each_subject(e: EngineView, looks: Seq<Look>, id: SubjectId)
    requires
        e.states == Map::<SubjectId, StateView>::empty(),
        e.rules.len() <= usize::MAX,
        e.tick + looks.len() <= u64::MAX,
        id.rule < e.rules.len(),
        forall|i: int| 0 <= i < looks.len() ==> processes_once((#[trigger] looks[i]).snap),
    ensures
        lookup(evaluations(e, looks).states, id) == follow(
            e.rules[id.rule as int],
            row_of(e, looks, id),
        ).0,
        history_of_row(e, looks, id) == follow(e.rules[id.rule as int], row_of(e, looks, id)).1,
    decreases looks.len(),
{
    if looks.len() > 0 {
        let before = looks.drop_last();
        let last = looks.last();
        let n = looks.len() - 1;
        assert(looks[n] == last);
        assert forall|i: int| 0 <= i < before.len() implies processes_once((#[trigger] before[i]).snap) by {
            assert(before[i] == looks[i]);
        }
        law_the_engine_follows_each_subject(e, before, id);
        lemma_evaluations_fit(e, before);
        let b = evaluations(e, before);
        let obs = observed(b.rules, last.snap);
        lemma_observation(obs, id);
        law_each_subject_has_its_own_events(b, last, id);
        let row = row_of(e, looks, id);
        match observation(obs, id) {
            Some(o) => {
                let i = choose|i: int| 0 <= i < obs.len() && #[trigger] obs[i] == o;
                law_observed_subjects_move_on(b, last.snap, last.now, i);
                assert(row.drop_last() =~= row_of(e, before, id));
                assert(history_of_row(e, looks, id) =~= follow(e.rules[id.rule as int], row).1);
            },
            None => {
                if watched(e.rules[id.rule as int], last.snap.procs, id) {
                    law_an_alert_stays_with_its_process(b, last.snap, last.now, id);
                    assert(row.drop_last() =~= row_of(e, before, id));
                    assert(history_of_row(e, looks, id) =~= follow(e.rules[id.rule as int], row).1);
                } else {
                    law_no_alert_latches(b, last.snap, last.now, id);
                }
            },
        }
    }
}

/// The events of a subject alternate, through exits and absences: it fires
/// first, it clears before it fires again, and its alert is active exactly while
/// the last that was reported of it is that it fired.
pub proof fn law_each_subject_fires_and_clears_in_turn(e: EngineView, looks: Seq<Look>, id: SubjectId)
    requires
        e.states == Map::<SubjectId, StateView>::empty(),
        e.rules.len() <= usize::MAX,
        e.tick + looks.len() <= u64::MAX,
        forall|i: int| 0 <= i < looks.len() ==> processes_once((#[trigger] looks[i]).snap),
    ensures
        forall|i: int|
            0 <= i < history(e, looks, id).len() ==> ((#[trigger] history(e, looks, id)[i]).kind
                == EventKind::Fired <==> i % 2 == 0),
        evaluations(e, looks).fires(id) <==> history(e, looks, id).len() % 2 == 1,
    decreases looks.len(),
{
    if looks.len() > 0 {
        let before = looks.drop_last();
        let last = looks.last();
        let n = looks.len() - 1;
        assert(looks[n] == last);
        assert forall|i: int| 0 <= i < before.len() implies processes_once((#[trigger] before[i]).snap) by {
            assert(before[i] == looks[i]);
        }
        law_each_subject_fires_and_clears_in_turn(e, before, id);
        lemma_evaluations_fit(e, before);
        let b = evaluations(e, before);
        let obs = observed(b.rules, last.snap);
        lemma_observation(obs, id);
        law_each_subject_has_its_own_events(b, last, id);
        let now = evaluations(e, looks);
        assert(now.fires(id) <==> in_phase(lookup(now.states, id), Phase::Firing));
        assert(b.fires(id) <==> in_phase(lookup(b.states, id), Phase::Firing));
        match observation(obs, id) {
            Some(o) => {
                let i = choose|i: int| 0 <= i < obs.len() && #[trigger] obs[i] == o;
                law_observed_subjects_move_on(b, last.snap, last.now, i);
            },
            None => {
                if watched(e.rules[id.rule as int], last.snap.procs, id) {
                    law_an_alert_stays_with_its_process(b, last.snap, last.now, id);
                } else {
                    law_no_alert_latches(b, last.snap, last.now, id);
                }
            },
        }
        let past = history(e, before, id);
        let all = history(e, looks, id);
        assert forall|i: int| 0 <= i < all.len() implies ((#[trigger] all[i]).kind == EventKind::Fired
            <==> i % 2 == 0) by {
            if i < past.len() {
                assert(all[i] == past[i]);
            } else {
                assert(all[i] == reported_of(b, last, id)[i - past.len()]);
            }
        }
    }
}

// ----------------------------------------------------------------- balance --

/// How many of the events are of `kind`.
pub open spec fn tally(events: Seq<EventView>, kind: EventKind) -> nat
    decreases events.len(),
{
    if events.len() == 0 {
        0
    } else if events.last().kind == kind {
        tally(events.drop_last(), kind) + 1
    } else {
        tally(events.drop_last(), kind)
    }
}

/// The subjects whose alerts are active.
spec fn firing_in(m: Map<SubjectId, StateView>) -> Set<SubjectId> {
    Set::new(|id: SubjectId| m.contains_key(id) && m[id].phase == Phase::Firing)
}

proof fn lemma_tally_noted(events: Seq<EventView>, e: Option<EventView>, kind: EventKind)
    ensures
        tally(noted(events, e), kind) == tally(events, kind) + if e is Some && e->0.kind == kind {
            1int
        } else {
            0int
        },
{
    if e is Some {
        assert(events.push(e->0).drop_last() =~= events);
    }
}

proof fn lemma_tally_joins(a: Seq<EventView>, b: Seq<EventView>, kind: EventKind)
    ensures
        tally(a + b, kind) == tally(a, kind) + tally(b, kind),
    decreases b.len(),
{
    if b.len() == 0 {
        assert(a + b =~= a);
    } else {
        assert((a + b).drop_last() =~= a + b.drop_last());
        assert((a + b).last() == b.last());
        lemma_tally_joins(a, b.drop_last(), kind);
    }
}

proof fn lemma_tally_gone(events: Seq<EventView>)
    requires
        forall|i: int| 0 <= i < events.len() ==> (#[trigger] events[i]).kind == EventKind::ClearedGone,
    ensures
        tally(events, EventKind::ClearedGone) == events.len(),
        tally(events, EventKind::Fired) == 0,
        tally(events, EventKind::Cleared) == 0,
    decreases events.len(),
{
    if events.len() > 0 {
        let before = events.drop_last();
        assert forall|i: int| 0 <= i < before.len() implies (#[trigger] before[i]).kind
            == EventKind::ClearedGone by {
            assert(before[i] == events[i]);
        }
        lemma_tally_gone(before);
        assert(events[events.len() - 1].kind == EventKind::ClearedGone);
    }
}

proof fn lemma_step_balances(
    m: Map<SubjectId, StateView>,
    o: Observed,
    rule: RuleView,
    now: Instant,
    tick: u64,
)
    requires
        firing_in(m).finite(),
    ensures
        ({
            let (st, e) = advance(lookup(m, o.id), rule, o.label, o.value, now, tick);
            let f = firing_in(with_state(m, o.id, st));
            &&& f.finite()
            &&& match e {
                Some(e) => if e.kind == EventKind::Fired {
                    f.len() == firing_in(m).len() + 1
                } else {
                    e.kind == EventKind::Cleared && f.len() + 1 == firing_in(m).len()
                },
                None => f.len() == firing_in(m).len(),
            }
        }),
{
    let (st, e) = advance(lookup(m, o.id), rule, o.label, o.value, now, tick);
    let f = firing_in(with_state(m, o.id, st));
    if in_phase(st, Phase::Firing) {
        assert(f =~= firing_in(m).insert(o.id));
    } else {
        assert(f =~= firing_in(m).remove(o.id));
    }
    assert(firing_in(m).contains(o.id) <==> in_phase(lookup(m, o.id), Phase::Firing));
}

proof fn lemma_run_balances(
    rules: Seq<RuleView>,
    states: Map<SubjectId, StateView>,
    obs: Seq<Observed>,
    now: Instant,
    tick: u64,
)
    requires
        firing_in(states).finite(),
    ensures
        ({
            let (m, events) = run(rules, states, obs, now, tick);
            &&& firing_in(m).finite()
            &&& firing_in(m).len() + tally(events, EventKind::Cleared) == firing_in(states).len() + tally(
                events,
                EventKind::Fired,
            )
            &&& tally(events, EventKind::ClearedGone) == 0
        }),
    decreases obs.len(),
{
    if obs.len() > 0 {
        lemma_run_balances(rules, states, obs.drop_last(), now, tick);
        let (m, events) = run(rules, states, obs.drop_last(), now, tick);
        let o = obs.last();
        let rule = rules[o.id.rule as int];
        let (st, e) = advance(lookup(m, o.id), rule, o.label, o.value, now, tick);
        lemma_step_balances(m, o, rule, now, tick);
        lemma_tally_noted(events, e, EventKind::Fired);
        lemma_tally_noted(events, e, EventKind::Cleared);
        lemma_tally_noted(events, e, EventKind::ClearedGone);
    }
}

proof fn lemma_without(s: Set<SubjectId>, ids: Seq<SubjectId>) -> (left: Set<SubjectId>)
    requires
        s.finite(),
        ids.no_duplicates(),
        forall|id: SubjectId| #[trigger] ids.contains(id) ==> s.contains(id),
    ensures
        left.finite(),
        left.len() + ids.len() == s.len(),
        forall|id: SubjectId| #[trigger] left.contains(id) <==> s.contains(id) && !ids.contains(id),
    decreases ids.len(),
{
    if ids.len() == 0 {
        s
    } else {
        let less = ids.drop_last();
        let id = ids.last();
        assert forall|x: SubjectId| #[trigger] ids.contains(x) <==> less.contains(x) || x == id by {
            if ids.contains(x) {
                let i = ids.index_of(x);
                if i < less.len() {
                    assert(less[i] == x);
                }
            }
            if less.contains(x) {
                let i = less.index_of(x);
                assert(ids[i] == x);
            }
            assert(ids[ids.len() - 1] == id);
        }
        assert(!less.contains(id)) by {
            if less.contains(id) {
                let i = less.index_of(id);
                assert(ids[i] == ids[ids.len() - 1]);
            }
        }
        assert(less.no_duplicates());
        assert forall|x: SubjectId| #[trigger] less.contains(x) implies s.contains(x) by {
            assert(ids.contains(x));
        }
        let more = lemma_without(s, less);
        assert(ids.contains(id));
        more.remove(id)
    }
}

/// No alert is lost and none comes from nowhere: those active before an
/// evaluation and those fired in it are those active after it, those cleared and
/// those gone.
pub proof fn law_alerts_balance(e: EngineView, snap: SnapshotView, now: Instant, events: Seq<EventView>)
    requires
        e.reports(snap, now, events),
        e.firing().finite(),
    ensures
        e.evaluated(snap, now).firing().finite(),
        e.evaluated(snap, now).firing().len() + tally(events, EventKind::Cleared) + tally(
            events,
            EventKind::ClearedGone,
        ) == e.firing().len() + tally(events, EventKind::Fired),
        e.evaluated(snap, now).rules == e.rules,
{
    let tick = (e.tick + 1) as u64;
    let (m, seen) = run(e.rules, e.states, observed(e.rules, snap), now, tick);
    let left = events.skip(seen.len() as int);
    let ids = choose|ids: Seq<SubjectId>| reports_gone(ids, left, e.rules, m, snap.procs, now, tick);
    assert(firing_in(e.states) =~= e.firing());
    lemma_run_balances(e.rules, e.states, observed(e.rules, snap), now, tick);
    assert(events =~= seen + left);
    lemma_tally_joins(seen, left, EventKind::Fired);
    lemma_tally_joins(seen, left, EventKind::Cleared);
    lemma_tally_joins(seen, left, EventKind::ClearedGone);
    lemma_tally_gone(left);
    assert forall|id: SubjectId| #[trigger] ids.contains(id) implies firing_in(m).contains(id) by {}
    let rest = lemma_without(firing_in(m), ids);
    let after = e.evaluated(snap, now);
    assert forall|id: SubjectId| #[trigger] after.firing().contains(id) <==> rest.contains(id) by {
        assert(ids.contains(id) <==> is_left(m, tick, e.rules, snap.procs, id));
    }
    assert(after.firing() =~= rest);
}

} // verus!
