//! What a reader sees: the terminal view and the JSON objects.

use vstd::prelude::*;

use crate::binary64::{
    law_nearest_keeps_order, law_representable_is_exact, law_small_whole_numbers_are_exact, lemma_consts,
    lemma_units_order, of_int, one_units, Binary64,
};
use crate::decimal::{fixed, push_fixed};
use crate::delta::{rate_views, ProcRate, ProcRateView, Snapshot, SnapshotView, SystemRate, SystemRateView};
use crate::numbers::{dec, dec_int, push_dec, push_dec_int};
use crate::ring::Ring;
use crate::rules::{event_views, Event, EventKind, EventView};
use crate::sampler::{alert_view, alert_views, AlertView, HistoryPoint, Shared};
use crate::text::{chars_of, copy_str};
use crate::time::{secs_real, Duration};
use crate::units::{bytes_text, human_bytes, human_rate, rate_text};

verus! {

// ---------------------------------------------------------------- columns --

/// `n` spaces.
pub open spec fn spaces(n: nat) -> Seq<char> {
    Seq::new(n, |i: int| ' ')
}

/// `s` at the right of a column of `w` characters; a longer text as it is.
pub open spec fn right_in(s: Seq<char>, w: nat) -> Seq<char> {
    if s.len() < w {
        spaces((w - s.len()) as nat) + s
    } else {
        s
    }
}

/// `s` at the left of a column of `w` characters; a longer text as it is.
pub open spec fn left_in(s: Seq<char>, w: nat) -> Seq<char> {
    if s.len() < w {
        s + spaces((w - s.len()) as nat)
    } else {
        s
    }
}

fn push_spaces(out: &mut String, n: usize)
    ensures
        final(out)@ == old(out)@ + spaces(n as nat),
{
    let ghost before = out@;
    assert(before =~= before + spaces(0));
    let mut i: usize = 0;
    while i < n
        invariant
            i <= n,
            out@ == before + spaces(i as nat),
        decreases n - i,
    {
        out.push(' ');
        assert(before + spaces((i + 1) as nat) =~= (before + spaces(i as nat)).push(' '));
        i += 1;
    }
}

fn push_right(out: &mut String, s: &str, w: usize)
    ensures
        final(out)@ == old(out)@ + right_in(s@, w as nat),
{
    let ghost before = out@;
    let n = chars_of(s).len();
    if n < w {
        push_spaces(out, w - n);
    }
    out.append(s);
    assert(out@ =~= before + right_in(s@, w as nat));
}

fn push_left(out: &mut String, s: &str, w: usize)
    ensures
        final(out)@ == old(out)@ + left_in(s@, w as nat),
{
    let ghost before = out@;
    let n = chars_of(s).len();
    out.append(s);
    if n < w {
        push_spaces(out, w - n);
    }
    assert(out@ =~= before + left_in(s@, w as nat));
}

/// The text of a number.
fn fixed_text(x: &Binary64, p: u64) -> (r: String)
    requires
        p <= 3,
    ensures
        r@ == fixed(*x, p as nat),
{
    let mut r = String::new();
    push_fixed(&mut r, x, p);
    assert(Seq::<char>::empty() + fixed(*x, p as nat) =~= fixed(*x, p as nat));
    r
}

/// The text of an integer.
fn int_text(n: i64) -> (r: String)
    ensures
        r@ == dec_int(n as int),
{
    let mut r = String::new();
    push_dec_int(&mut r, n);
    assert(Seq::<char>::empty() + dec_int(n as int) =~= dec_int(n as int));
    r
}

/// A span of time in milliseconds.
pub open spec fn millis(d: Duration) -> Binary64 {
    secs_real(d.nanos as nat).product(of_int(1000))
}

fn millis_of(d: &Duration) -> (r: Binary64)
    ensures
        r == millis(*d),
{
    d.as_secs_real().times(&Binary64::from_u64(1000))
}

// -------------------------------------------------------------- sparkline --

/// The block of height `i`, from an eighth of a line to a full one.
pub open spec fn block(i: nat) -> char {
    if i == 0 {
        '\u{2581}'
    } else if i == 1 {
        '\u{2582}'
    } else if i == 2 {
        '\u{2583}'
    } else if i == 3 {
        '\u{2584}'
    } else if i == 4 {
        '\u{2585}'
    } else if i == 5 {
        '\u{2586}'
    } else if i == 6 {
        '\u{2587}'
    } else {
        '\u{2588}'
    }
}

/// The height of the block for `v`, where `max` stands for a full one.
pub open spec fn height(v: Binary64, max: Binary64) -> nat {
    let top = if max.le(of_int(0)) {
        of_int(1)
    } else {
        max
    };
    v.quotient(top).held_between(of_int(0), of_int(1)).product(of_int(7)).rounded(u64::MAX as nat)
}

/// A line of blocks, one for each value.
pub open spec fn spark(vals: Seq<Binary64>, max: Binary64) -> Seq<char> {
    vals.map_values(|v: Binary64| block(height(v, max)))
}

/// Renders values up to `max` as a one-line sparkline.
#[verifier::rlimit(40)]
pub fn sparkline(vals: &Vec<Binary64>, max: &Binary64) -> (r: String)
    ensures
        r@ == spark(vals@, *max),
{
    let mut out = String::new();
    let zero = Binary64::from_u64(0);
    let one = Binary64::from_u64(1);
    let top = if max.at_most(&zero) {
        one
    } else {
        *max
    };
    let mut i: usize = 0;
    while i < vals.len()
        invariant
            i <= vals.len(),
            zero == of_int(0),
            one == of_int(1),
            top == if max.le(of_int(0)) {
                of_int(1)
            } else {
                *max
            },
            out@ == spark(vals@.take(i as int), *max),
        decreases vals.len() - i,
    {
        let v = &vals[i];
        let h = v.over(&top).clamp(&zero, &one).times(&Binary64::from_u64(7)).round_to_u64();
        let c = if h == 0 {
            '\u{2581}'
        } else if h == 1 {
            '\u{2582}'
        } else if h == 2 {
            '\u{2583}'
        } else if h == 3 {
            '\u{2584}'
        } else if h == 4 {
            '\u{2585}'
        } else if h == 5 {
            '\u{2586}'
        } else if h == 6 {
            '\u{2587}'
        } else {
            '\u{2588}'
        };
        out.push(c);
        assert(spark(vals@.take(i + 1), *max) =~= spark(vals@.take(i as int), *max).push(c));
        i += 1;
    }
    assert(vals@.take(i as int) =~= vals@);
    out
}

/// The last sixty values of CPU in the history.
pub open spec fn recent_cpu(history: Seq<HistoryPoint>) -> Seq<Binary64> {
    let all = history.map_values(|h: HistoryPoint| h.cpu_pct);
    if all.len() > 60 {
        all.skip(all.len() - 60)
    } else {
        all
    }
}

fn cpu_tail(history: &Ring<HistoryPoint>) -> (r: Vec<Binary64>)
    requires
        history.wf(),
    ensures
        r@ == recent_cpu(history@),
{
    let points = history.iter_chrono();
    let n = points.len();
    let start = if n > 60 {
        n - 60
    } else {
        0
    };
    let mut out: Vec<Binary64> = Vec::new();
    let mut i: usize = start;
    while i < n
        invariant
            start <= i <= n == points@.len() == history@.len(),
            forall|k: int| 0 <= k < points@.len() ==> *(#[trigger] points@[k]) == history@[k],
            out@.len() == i - start,
            forall|k: int| 0 <= k < out@.len() ==> #[trigger] out@[k] == history@[start + k].cpu_pct,
        decreases n - i,
    {
        out.push(points[i].cpu_pct);
        i += 1;
    }
    assert(out@ =~= recent_cpu(history@));
    out
}

// ----------------------------------------------------------- terminal view --

/// The first line: CPU, memory and network.
pub open spec fn headline(sys: SystemRateView) -> Seq<char> {
    "vitals   cpu "@ + right_in(fixed(sys.cpu_pct, 1), 5) + "%  mem "@ + right_in(
        fixed(sys.mem.used_percent(), 1),
        5,
    ) + "% ("@ + bytes_text(sys.mem.used_bytes()) + " / "@ + bytes_text(sys.mem.total as nat)
        + ")  net rx "@ + right_in(rate_text(sys.net_rx_bps), 9) + " tx "@ + right_in(
        rate_text(sys.net_tx_bps),
        9,
    ) + "\n"@
}

fn headline_of(sys: &SystemRate) -> (r: String)
    ensures
        r@ == headline(sys@),
{
    let mut s = copy_str("vitals   cpu ");
    push_right(&mut s, fixed_text(&sys.cpu_pct, 1).as_str(), 5);
    s.append("%  mem ");
    push_right(&mut s, fixed_text(&sys.mem.used_pct(), 1).as_str(), 5);
    s.append("% (");
    s.append(human_bytes(sys.mem.used()).as_str());
    s.append(" / ");
    s.append(human_bytes(sys.mem.total).as_str());
    s.append(")  net rx ");
    push_right(&mut s, human_rate(&sys.net_rx_bps).as_str(), 9);
    s.append(" tx ");
    push_right(&mut s, human_rate(&sys.net_tx_bps).as_str(), 9);
    s.append("\n");
    s
}

/// The line of counts and times.
pub open spec fn counts_line(sys: SystemRateView) -> Seq<char> {
    "procs "@ + dec(sys.proc_count as nat) + "  running "@ + dec(sys.procs_running as nat) + "  blocked "@
        + dec(sys.procs_blocked as nat) + "  ctxsw "@ + fixed(sys.ctxt_per_sec, 0) + "/s  vanished "@ + dec(
        sys.vanished as nat,
    ) + "  scan "@ + fixed(millis(sys.scan_time), 1) + "ms  interval "@ + fixed(millis(sys.interval), 0)
        + "ms\n"@
}

fn counts_line_of(sys: &SystemRate) -> (r: String)
    ensures
        r@ == counts_line(sys@),
{
    let mut s = copy_str("procs ");
    push_dec(&mut s, sys.proc_count as u128);
    s.append("  running ");
    push_dec(&mut s, sys.procs_running as u128);
    s.append("  blocked ");
    push_dec(&mut s, sys.procs_blocked as u128);
    s.append("  ctxsw ");
    push_fixed(&mut s, &sys.ctxt_per_sec, 0);
    s.append("/s  vanished ");
    push_dec(&mut s, sys.vanished as u128);
    s.append("  scan ");
    push_fixed(&mut s, &millis_of(&sys.scan_time), 1);
    s.append("ms  interval ");
    push_fixed(&mut s, &millis_of(&sys.interval), 0);
    s.append("ms\n");
    s
}

/// The shares of the cores, each with its number.
pub open spec fn core_cells(pcts: Seq<Binary64>) -> Seq<char>
    decreases pcts.len(),
{
    if pcts.len() == 0 {
        seq![]
    } else {
        core_cells(pcts.drop_last()) + dec((pcts.len() - 1) as nat) + ":"@ + right_in(
            fixed(pcts.last(), 0),
            3,
        ) + "% "@
    }
}

/// The line of the cores, when there is more than one.
pub open spec fn cores_line(pcts: Seq<Binary64>) -> Seq<char> {
    if pcts.len() > 1 {
        "cores    "@ + core_cells(pcts) + "\n"@
    } else {
        seq![]
    }
}

fn cores_line_of(pcts: &Vec<Binary64>) -> (r: String)
    ensures
        r@ == cores_line(pcts@),
{
    if pcts.len() <= 1 {
        return String::new();
    }
    let mut cells = String::new();
    let mut i: usize = 0;
    while i < pcts.len()
        invariant
            i <= pcts.len(),
            cells@ == core_cells(pcts@.take(i as int)),
        decreases pcts.len() - i,
    {
        proof {
            assert(pcts@.take(i + 1).drop_last() =~= pcts@.take(i as int));
            assert(pcts@.take(i + 1).last() == pcts@[i as int]);
        }
        push_dec(&mut cells, i as u128);
        cells.append(":");
        push_right(&mut cells, fixed_text(&pcts[i], 0).as_str(), 3);
        cells.append("% ");
        i += 1;
    }
    assert(pcts@.take(i as int) =~= pcts@);
    let mut s = copy_str("cores    ");
    s.append(cells.as_str());
    s.append("\n");
    s
}

/// The line of an active alert.
pub open spec fn alert_line(a: AlertView) -> Seq<char> {
    "  ! "@ + left_in(a.0, 16) + " "@ + left_in(a.1, 28) + " firing "@ + fixed(
        secs_real(a.2.nanos as nat),
        0,
    ) + "s\n"@
}

/// The lines of active alerts.
pub open spec fn alert_lines(v: Seq<AlertView>) -> Seq<char>
    decreases v.len(),
{
    if v.len() == 0 {
        seq![]
    } else {
        alert_lines(v.drop_last()) + alert_line(v.last())
    }
}

/// The first `n` of `v`, or all of them.
pub open spec fn at_most<T>(v: Seq<T>, n: nat) -> Seq<T> {
    if v.len() <= n {
        v
    } else {
        v.take(n as int)
    }
}

/// The active alerts: how many there are, and the first eight.
pub open spec fn alerts_part(v: Seq<AlertView>) -> Seq<char> {
    if v.len() == 0 {
        seq![]
    } else {
        "\nACTIVE ALERTS ("@ + dec(v.len()) + ")\n"@ + alert_lines(at_most(v, 8))
    }
}

fn alert_line_of(a: &(String, String, Duration)) -> (r: String)
    ensures
        r@ == alert_line(alert_view(*a)),
{
    let mut s = copy_str("  ! ");
    push_left(&mut s, a.0.as_str(), 16);
    s.append(" ");
    push_left(&mut s, a.1.as_str(), 28);
    s.append(" firing ");
    push_fixed(&mut s, &a.2.as_secs_real(), 0);
    s.append("s\n");
    s
}

fn alerts_part_of(v: &Vec<(String, String, Duration)>) -> (r: String)
    ensures
        r@ == alerts_part(alert_views(v@)),
{
    let ghost all = alert_views(v@);
    if v.len() == 0 {
        return String::new();
    }
    let n = if v.len() < 8 {
        v.len()
    } else {
        8
    };
    let mut lines = String::new();
    let mut i: usize = 0;
    while i < n
        invariant
            i <= n <= v.len(),
            all == alert_views(v@),
            lines@ == alert_lines(all.take(i as int)),
        decreases n - i,
    {
        proof {
            assert(all.take(i + 1).drop_last() =~= all.take(i as int));
            assert(all.take(i + 1).last() == alert_view(v@[i as int]));
        }
        lines.append(alert_line_of(&v[i]).as_str());
        i += 1;
    }
    assert(all.take(n as int) =~= at_most(all, 8));
    let mut s = copy_str("\nACTIVE ALERTS (");
    push_dec(&mut s, v.len() as u128);
    s.append(")\n");
    s.append(lines.as_str());
    s
}

/// What happened, in a word.
pub open spec fn tag(kind: EventKind) -> Seq<char> {
    match kind {
        EventKind::Fired => "FIRED  "@,
        EventKind::Cleared => "CLEARED"@,
        EventKind::ClearedGone => "GONE   "@,
    }
}

/// The line of an event.
pub open spec fn event_line(e: EventView) -> Seq<char> {
    "  "@ + tag(e.kind) + " "@ + left_in(e.rule_name, 16) + " "@ + left_in(e.subject, 26) + " "@
        + e.metric.text() + "="@ + fixed(e.value, 1) + " (thr "@ + fixed(e.threshold, 1) + ") after "@
        + fixed(secs_real(e.held_for.nanos as nat), 0) + "s\n"@
}

/// The lines of the last `n` events, the newest first.
pub open spec fn newest_lines(v: Seq<EventView>, n: nat) -> Seq<char>
    decreases n,
{
    if n == 0 {
        seq![]
    } else {
        newest_lines(v, (n - 1) as nat) + event_line(v[v.len() - n])
    }
}

/// The recent events: the last five, the newest first.
pub open spec fn events_part(v: Seq<EventView>) -> Seq<char> {
    if v.len() == 0 {
        seq![]
    } else if v.len() < 5 {
        "\nRECENT EVENTS\n"@ + newest_lines(v, v.len())
    } else {
        "\nRECENT EVENTS\n"@ + newest_lines(v, 5)
    }
}

fn event_line_of(e: &Event) -> (r: String)
    ensures
        r@ == event_line(e@),
{
    let mut s = copy_str("  ");
    s.append(
        match e.kind {
            EventKind::Fired => "FIRED  ",
            EventKind::Cleared => "CLEARED",
            EventKind::ClearedGone => "GONE   ",
        },
    );
    s.append(" ");
    push_left(&mut s, e.rule_name.as_str(), 16);
    s.append(" ");
    push_left(&mut s, e.subject.as_str(), 26);
    s.append(" ");
    s.append(e.metric.name());
    s.append("=");
    push_fixed(&mut s, &e.value, 1);
    s.append(" (thr ");
    push_fixed(&mut s, &e.threshold, 1);
    s.append(") after ");
    push_fixed(&mut s, &e.held_for.as_secs_real(), 0);
    s.append("s\n");
    s
}

fn events_part_of(log: &Ring<Event>) -> (r: String)
    requires
        log.wf(),
    ensures
        r@ == events_part(event_views(log@)),
{
    let recent = log.iter_chrono();
    let ghost all = event_views(log@);
    let n = recent.len();
    if n == 0 {
        return String::new();
    }
    let count = if n < 5 {
        n
    } else {
        5
    };
    let mut lines = String::new();
    let mut i: usize = 0;
    while i < count
        invariant
            i <= count <= n == recent@.len() == log@.len(),
            all == event_views(log@),
            forall|k: int| 0 <= k < recent@.len() ==> *(#[trigger] recent@[k]) == log@[k],
            lines@ == newest_lines(all, i as nat),
        decreases count - i,
    {
        let e = recent[n - 1 - i];
        assert(all[all.len() - (i + 1)] == e@);
        lines.append(event_line_of(e).as_str());
        i += 1;
    }
    let mut s = copy_str("\nRECENT EVENTS\n");
    s.append(lines.as_str());
    s
}

/// The head of the process table.
pub open spec fn table_head() -> Seq<char> {
    "\n"@ + right_in("PID"@, 7) + " "@ + right_in("PPID"@, 7) + " "@ + right_in("CPU%"@, 6) + " "@ + right_in(
        "RSS"@,
        9,
    ) + " "@ + right_in("TH"@, 3) + " "@ + right_in("DISK R"@, 10) + " "@ + right_in("DISK W"@, 10) + "  "@
        + "COMMAND"@ + "\n"@
}

fn table_head_text() -> (r: String)
    ensures
        r@ == table_head(),
{
    let mut s = copy_str("\n");
    push_right(&mut s, "PID", 7);
    s.append(" ");
    push_right(&mut s, "PPID", 7);
    s.append(" ");
    push_right(&mut s, "CPU%", 6);
    s.append(" ");
    push_right(&mut s, "RSS", 9);
    s.append(" ");
    push_right(&mut s, "TH", 3);
    s.append(" ");
    push_right(&mut s, "DISK R", 10);
    s.append(" ");
    push_right(&mut s, "DISK W", 10);
    s.append("  ");
    s.append("COMMAND");
    s.append("\n");
    s
}

/// A rate that may be unknown: a dash, rather than a wrong zero.
pub open spec fn disk_text(v: Option<Binary64>) -> Seq<char> {
    match v {
        Some(v) => rate_text(v),
        None => "-"@,
    }
}

fn disk_text_of(v: &Option<Binary64>) -> (r: String)
    ensures
        r@ == disk_text(*v),
{
    match v {
        Some(v) => human_rate(v),
        None => copy_str("-"),
    }
}

/// The row of a process.
pub open spec fn row(p: ProcRateView) -> Seq<char> {
    right_in(dec_int(p.pid as int), 7) + " "@ + right_in(dec_int(p.ppid as int), 7) + " "@ + right_in(
        fixed(p.cpu_pct, 1),
        6,
    ) + " "@ + right_in(bytes_text(p.rss_bytes as nat), 9) + " "@ + right_in(dec_int(p.threads as int), 3)
        + " "@ + right_in(disk_text(p.read_bps), 10) + " "@ + right_in(disk_text(p.write_bps), 10) + "  "@
        + p.comm + (if p.state == 'Z' {
        " <zombie>"@
    } else {
        ""@
    }) + "\n"@
}

fn row_of(p: &ProcRate) -> (r: String)
    ensures
        r@ == row(p@),
{
    let mut s = String::new();
    push_right(&mut s, int_text(p.pid as i64).as_str(), 7);
    assert(s@ =~= right_in(dec_int(p.pid as int), 7));
    s.append(" ");
    push_right(&mut s, int_text(p.ppid as i64).as_str(), 7);
    s.append(" ");
    push_right(&mut s, fixed_text(&p.cpu_pct, 1).as_str(), 6);
    s.append(" ");
    push_right(&mut s, human_bytes(p.rss_bytes).as_str(), 9);
    s.append(" ");
    push_right(&mut s, int_text(p.threads).as_str(), 3);
    s.append(" ");
    push_right(&mut s, disk_text_of(&p.read_bps).as_str(), 10);
    s.append(" ");
    push_right(&mut s, disk_text_of(&p.write_bps).as_str(), 10);
    s.append("  ");
    s.append(p.comm.as_str());
    s.append(
        if p.state == 'Z' {
            " <zombie>"
        } else {
            ""
        },
    );
    s.append("\n");
    s
}

/// The rows of processes.
pub open spec fn rows(v: Seq<ProcRateView>) -> Seq<char>
    decreases v.len(),
{
    if v.len() == 0 {
        seq![]
    } else {
        rows(v.drop_last()) + row(v.last())
    }
}

fn rows_of(v: &Vec<ProcRate>, top: usize) -> (r: String)
    ensures
        r@ == rows(at_most(rate_views(v@), top as nat)),
{
    let ghost all = rate_views(v@);
    let n = if v.len() < top {
        v.len()
    } else {
        top
    };
    let mut s = String::new();
    let mut i: usize = 0;
    while i < n
        invariant
            i <= n <= v.len(),
            all == rate_views(v@),
            s@ == rows(all.take(i as int)),
        decreases n - i,
    {
        proof {
            assert(all.take(i + 1).drop_last() =~= all.take(i as int));
            assert(all.take(i + 1).last() == v@[i as int]@);
        }
        s.append(row_of(&v[i]).as_str());
        i += 1;
    }
    assert(all.take(n as int) =~= at_most(all, top as nat));
    s
}

/// The terminal view.
pub open spec fn text_view(
    snap: SnapshotView,
    history: Seq<HistoryPoint>,
    events: Seq<EventView>,
    alerts: Seq<AlertView>,
    top: nat,
    plain: bool,
) -> Seq<char> {
    headline(snap.system) + (if plain {
        seq![]
    } else {
        "cpu 60s  "@ + spark(recent_cpu(history), of_int(100)) + "\n"@
    }) + counts_line(snap.system) + cores_line(snap.system.per_cpu_pct) + alerts_part(alerts) + events_part(
        events,
    ) + table_head() + rows(at_most(snap.procs, top))
}

/// Renders the terminal view: the first `top` processes, and no sparkline where
/// it is `plain`.
pub fn render_text(snap: &Snapshot, shared: &Shared, top: usize, plain: bool) -> (r: String)
    requires
        shared.wf(),
    ensures
        r@ == text_view(
            snap@,
            shared.history@,
            event_views(shared.events@),
            alert_views(shared.active_alerts@),
            top as nat,
            plain,
        ),
{
    let mut s = headline_of(&snap.system);
    if !plain {
        let tail = cpu_tail(&shared.history);
        let mut line = copy_str("cpu 60s  ");
        line.append(sparkline(&tail, &Binary64::from_u64(100)).as_str());
        line.append("\n");
        s.append(line.as_str());
    } else {
        assert(s@ =~= s@ + Seq::<char>::empty());
    }
    s.append(counts_line_of(&snap.system).as_str());
    s.append(cores_line_of(&snap.system.per_cpu_pct).as_str());
    s.append(alerts_part_of(&shared.active_alerts).as_str());
    s.append(events_part_of(&shared.events).as_str());
    s.append(table_head_text().as_str());
    s.append(rows_of(&snap.procs, top).as_str());
    s
}

/// The bytes that take the cursor home and clear the screen below it. Unlike a
/// full clear this does not flicker.
pub open spec fn home() -> Seq<char> {
    "\u{1b}[H\u{1b}[J"@
}

/// What to write for a terminal view: one that is shown again and again is
/// drawn over the one before.
pub fn frame(text: &str, once: bool) -> (r: String)
    ensures
        r@ == if once {
            text@
        } else {
            home() + text@
        },
{
    if once {
        return copy_str(text);
    }
    let mut s = copy_str("\u{1b}[H\u{1b}[J");
    s.append(text);
    s
}

// -------------------------------------------------------------------- json --

/// A hexadecimal digit.
pub open spec fn hex(d: nat) -> char {
    if d < 10 {
        (48 + d) as char
    } else {
        (87 + d) as char
    }
}

fn hex_digit(d: u32) -> (r: char)
    requires
        d < 16,
    ensures
        r == hex(d as nat),
{
    if d < 10 {
        (48u8 + d as u8) as char
    } else {
        (87u8 + d as u8) as char
    }
}

/// A character inside a JSON string.
pub open spec fn escaped(c: char) -> Seq<char> {
    if c == '"' {
        seq!['\\', '"']
    } else if c == '\\' {
        seq!['\\', '\\']
    } else if c == '\n' {
        seq!['\\', 'n']
    } else if c == '\r' {
        seq!['\\', 'r']
    } else if c == '\t' {
        seq!['\\', 't']
    } else if (c as nat) < 0x20 {
        seq!['\\', 'u', '0', '0', hex((c as nat) / 16), hex((c as nat) % 16)]
    } else {
        seq![c]
    }
}

/// The characters of a text inside a JSON string.
pub open spec fn escaped_all(s: Seq<char>) -> Seq<char>
    decreases s.len(),
{
    if s.len() == 0 {
        seq![]
    } else {
        escaped_all(s.drop_last()) + escaped(s.last())
    }
}

/// A text as a JSON string.
pub open spec fn json_string(s: Seq<char>) -> Seq<char> {
    seq!['"'] + escaped_all(s) + seq!['"']
}

fn push_escaped(out: &mut String, c: char)
    ensures
        final(out)@ == old(out)@ + escaped(c),
{
    let ghost before = out@;
    if c == '"' {
        out.push('\\');
        out.push('"');
    } else if c == '\\' {
        out.push('\\');
        out.push('\\');
    } else if c == '\n' {
        out.push('\\');
        out.push('n');
    } else if c == '\r' {
        out.push('\\');
        out.push('r');
    } else if c == '\t' {
        out.push('\\');
        out.push('t');
    } else if (c as u32) < 0x20 {
        out.push('\\');
        out.push('u');
        out.push('0');
        out.push('0');
        out.push(hex_digit(c as u32 / 16));
        out.push(hex_digit(c as u32 % 16));
    } else {
        out.push(c);
    }
    assert(out@ =~= before + escaped(c));
}

/// Escapes a text for JSON. The name of a process comes from the kernel and can
/// contain quotes, backslashes and control characters.
pub fn jstr(s: &str) -> (r: String)
    ensures
        r@ == json_string(s@),
{
    let text = chars_of(s);
    let mut out = String::new();
    out.push('"');
    assert(out@ =~= seq!['"'] + escaped_all(text@.take(0)));
    let mut i: usize = 0;
    while i < text.len()
        invariant
            i <= text.len(),
            out@ == seq!['"'] + escaped_all(text@.take(i as int)),
        decreases text.len() - i,
    {
        let ghost before = out@;
        proof {
            assert(text@.take(i + 1).drop_last() =~= text@.take(i as int));
            assert(text@.take(i + 1).last() == text@[i as int]);
        }
        push_escaped(&mut out, text[i]);
        assert(out@ =~= seq!['"'] + escaped_all(text@.take(i + 1)));
        i += 1;
    }
    assert(text@.take(i as int) =~= text@);
    out.push('"');
    assert(out@ =~= json_string(s@));
    out
}

/// A number in JSON, which has none that is not finite.
pub open spec fn json_number(v: Binary64) -> Seq<char> {
    if v.is_finite() {
        fixed(v, 3)
    } else {
        "null"@
    }
}

/// A number in JSON.
pub fn jnum(v: &Binary64) -> (r: String)
    ensures
        r@ == json_number(*v),
{
    if v.finite() {
        fixed_text(v, 3)
    } else {
        copy_str("null")
    }
}

/// A number in JSON that may be unknown.
pub open spec fn json_optional(v: Option<Binary64>) -> Seq<char> {
    match v {
        Some(v) => json_number(v),
        None => "null"@,
    }
}

fn jopt(v: &Option<Binary64>) -> (r: String)
    ensures
        r@ == json_optional(*v),
{
    match v {
        Some(v) => jnum(v),
        None => copy_str("null"),
    }
}

/// The system object.
pub open spec fn json_system(sys: SystemRateView) -> Seq<char> {
    "{\"system\":{"@ + "\"cpu_pct\":"@ + json_number(sys.cpu_pct) + ","@ + "\"mem_pct\":"@ + json_number(
        sys.mem.used_percent(),
    ) + ","@ + "\"mem_used\":"@ + dec(sys.mem.used_bytes()) + ","@ + "\"mem_total\":"@ + dec(
        sys.mem.total as nat,
    ) + ","@ + "\"net_rx_bps\":"@ + json_number(sys.net_rx_bps) + ","@ + "\"net_tx_bps\":"@ + json_number(
        sys.net_tx_bps,
    ) + ","@ + "\"proc_count\":"@ + dec(sys.proc_count as nat) + ","@ + "\"vanished\":"@ + dec(
        sys.vanished as nat,
    ) + ","@ + "\"scan_micros\":"@ + dec((sys.scan_time.nanos / 1_000) as nat) + "}"@
}

fn json_system_of(sys: &SystemRate) -> (r: String)
    ensures
        r@ == json_system(sys@),
{
    let mut s = copy_str("{\"system\":{");
    s.append("\"cpu_pct\":");
    s.append(jnum(&sys.cpu_pct).as_str());
    s.append(",");
    s.append("\"mem_pct\":");
    s.append(jnum(&sys.mem.used_pct()).as_str());
    s.append(",");
    s.append("\"mem_used\":");
    push_dec(&mut s, sys.mem.used() as u128);
    s.append(",");
    s.append("\"mem_total\":");
    push_dec(&mut s, sys.mem.total as u128);
    s.append(",");
    s.append("\"net_rx_bps\":");
    s.append(jnum(&sys.net_rx_bps).as_str());
    s.append(",");
    s.append("\"net_tx_bps\":");
    s.append(jnum(&sys.net_tx_bps).as_str());
    s.append(",");
    s.append("\"proc_count\":");
    push_dec(&mut s, sys.proc_count as u128);
    s.append(",");
    s.append("\"vanished\":");
    push_dec(&mut s, sys.vanished as u128);
    s.append(",");
    s.append("\"scan_micros\":");
    push_dec(&mut s, sys.scan_time.as_micros());
    s.append("}");
    s
}

/// The object of a process.
pub open spec fn json_process(p: ProcRateView) -> Seq<char> {
    "{\"pid\":"@ + dec_int(p.pid as int) + ",\"ppid\":"@ + dec_int(p.ppid as int) + ",\"comm\":"@
        + json_string(p.comm) + ",\"cpu_pct\":"@ + json_number(p.cpu_pct) + ",\"rss\":"@ + dec(
        p.rss_bytes as nat,
    ) + ",\"threads\":"@ + dec_int(p.threads as int) + ",\"read_bps\":"@ + json_optional(p.read_bps)
        + ",\"write_bps\":"@ + json_optional(p.write_bps) + "}"@
}

fn json_process_of(p: &ProcRate) -> (r: String)
    ensures
        r@ == json_process(p@),
{
    let mut s = copy_str("{\"pid\":");
    push_dec_int(&mut s, p.pid as i64);
    s.append(",\"ppid\":");
    push_dec_int(&mut s, p.ppid as i64);
    s.append(",\"comm\":");
    s.append(jstr(p.comm.as_str()).as_str());
    s.append(",\"cpu_pct\":");
    s.append(jnum(&p.cpu_pct).as_str());
    s.append(",\"rss\":");
    push_dec(&mut s, p.rss_bytes as u128);
    s.append(",\"threads\":");
    push_dec_int(&mut s, p.threads);
    s.append(",\"read_bps\":");
    s.append(jopt(&p.read_bps).as_str());
    s.append(",\"write_bps\":");
    s.append(jopt(&p.write_bps).as_str());
    s.append("}");
    s
}

/// The object of an active alert.
pub open spec fn json_alert(a: AlertView) -> Seq<char> {
    "{\"rule\":"@ + json_string(a.0) + ",\"subject\":"@ + json_string(a.1) + ",\"firing_secs\":"@
        + json_number(secs_real(a.2.nanos as nat)) + "}"@
}

fn json_alert_of(a: &(String, String, Duration)) -> (r: String)
    ensures
        r@ == json_alert(alert_view(*a)),
{
    let mut s = copy_str("{\"rule\":");
    s.append(jstr(a.0.as_str()).as_str());
    s.append(",\"subject\":");
    s.append(jstr(a.1.as_str()).as_str());
    s.append(",\"firing_secs\":");
    s.append(jnum(&a.2.as_secs_real()).as_str());
    s.append("}");
    s
}

/// The objects of processes, with commas between.
pub open spec fn json_processes(v: Seq<ProcRateView>) -> Seq<char>
    decreases v.len(),
{
    if v.len() == 0 {
        seq![]
    } else {
        json_processes(v.drop_last()) + (if v.len() > 1 {
            ","@
        } else {
            ""@
        }) + json_process(v.last())
    }
}

/// The objects of active alerts, with commas between.
pub open spec fn json_alerts(v: Seq<AlertView>) -> Seq<char>
    decreases v.len(),
{
    if v.len() == 0 {
        seq![]
    } else {
        json_alerts(v.drop_last()) + (if v.len() > 1 {
            ","@
        } else {
            ""@
        }) + json_alert(v.last())
    }
}

fn json_processes_of(v: &Vec<ProcRate>, top: usize) -> (r: String)
    ensures
        r@ == json_processes(at_most(rate_views(v@), top as nat)),
{
    let ghost all = rate_views(v@);
    let n = if v.len() < top {
        v.len()
    } else {
        top
    };
    let mut s = String::new();
    let mut i: usize = 0;
    while i < n
        invariant
            i <= n <= v.len(),
            all == rate_views(v@),
            s@ == json_processes(all.take(i as int)),
        decreases n - i,
    {
        proof {
            assert(all.take(i + 1).drop_last() =~= all.take(i as int));
            assert(all.take(i + 1).last() == v@[i as int]@);
        }
        s.append(
            if i > 0 {
                ","
            } else {
                ""
            },
        );
        s.append(json_process_of(&v[i]).as_str());
        i += 1;
    }
    assert(all.take(n as int) =~= at_most(all, top as nat));
    s
}

fn json_alerts_of(v: &Vec<(String, String, Duration)>) -> (r: String)
    ensures
        r@ == json_alerts(alert_views(v@)),
{
    let ghost all = alert_views(v@);
    let mut s = String::new();
    let mut i: usize = 0;
    while i < v.len()
        invariant
            i <= v.len(),
            all == alert_views(v@),
            s@ == json_alerts(all.take(i as int)),
        decreases v.len() - i,
    {
        proof {
            assert(all.take(i + 1).drop_last() =~= all.take(i as int));
            assert(all.take(i + 1).last() == alert_view(v@[i as int]));
        }
        s.append(
            if i > 0 {
                ","
            } else {
                ""
            },
        );
        s.append(json_alert_of(&v[i]).as_str());
        i += 1;
    }
    assert(all.take(i as int) =~= all);
    s
}

/// The JSON object of a snapshot.
pub open spec fn json_view(snap: SnapshotView, alerts: Seq<AlertView>, top: nat) -> Seq<char> {
    json_system(snap.system) + ",\"procs\":["@ + json_processes(at_most(snap.procs, top))
        + "],\"alerts\":["@ + json_alerts(alerts) + "]}"@
}

/// Renders the JSON object of a snapshot: the first `top` processes, and every
/// active alert.
pub fn render_json(snap: &Snapshot, shared: &Shared, top: usize) -> (r: String)
    ensures
        r@ == json_view(snap@, alert_views(shared.active_alerts@), top as nat),
{
    let mut s = json_system_of(&snap.system);
    s.append(",\"procs\":[");
    s.append(json_processes_of(&snap.procs, top).as_str());
    s.append("],\"alerts\":[");
    s.append(json_alerts_of(&shared.active_alerts).as_str());
    s.append("]}");
    s
}

// ------------------------------------------------------------------ laws --

#[verifier::rlimit(40)]
proof fn lemma_height(v: Binary64, max: Binary64)
    ensures
        height(v, max) <= 7,
{
    lemma_consts();
    let w = one_units();
    let top = if max.le(of_int(0)) {
        of_int(1)
    } else {
        max
    };
    let q = v.quotient(top);
    let f = q.held_between(of_int(0), of_int(1));
    let seven = of_int(7);
    let x = f.product(seven);
    law_small_whole_numbers_are_exact(0);
    law_small_whole_numbers_are_exact(1);
    law_small_whole_numbers_are_exact(7);
    vstd::arithmetic::power2::lemma_pow2_pos(1074);
    if !x.is_nan() && !x.negative() {
        assert(!f.is_nan());
        assert(of_int(1).value() == w);
        assert(of_int(0).value() == 0);
        assert(!of_int(1).is_nan() && !of_int(0).is_nan());
        assert(f.value() <= w);
        assert(!f.negative());
        let u = f.units();
        assert(u <= w);
        assert(!f.is_infinite()) by {
            lemma_units_order(of_int(1).magnitude(), f.magnitude());
        }
        assert((u * seven.units()) * w <= (seven.units() * w) * w) by (nonlinear_arith)
            requires
                u <= w,
        ;
        law_nearest_keeps_order(u * seven.units(), w, seven.units() * w, w);
        law_representable_is_exact(seven.magnitude(), w);
        lemma_units_order(x.magnitude(), seven.magnitude());
        assert(x.units() <= 7 * w);
        let n = (2 * x.units() + w) as nat / (2 * w) as nat;
        assert(n <= 7) by (nonlinear_arith)
            requires
                n == (2 * x.units() + w) as nat / (2 * w) as nat,
                x.units() <= 7 * w,
                w > 0,
        ;
    }
}

/// A sparkline has one block for each value, and no block is higher than a
/// full one.
pub proof fn law_sparklines_have_a_block_for_each_value(vals: Seq<Binary64>, max: Binary64)
    ensures
        spark(vals, max).len() == vals.len(),
        forall|i: int|
            0 <= i < vals.len() ==> #[trigger] spark(vals, max)[i] == block(height(vals[i], max)) && height(
                vals[i],
                max,
            ) <= 7,
{
    assert forall|i: int| 0 <= i < vals.len() implies #[trigger] spark(vals, max)[i] == block(
        height(vals[i], max),
    ) && height(vals[i], max) <= 7 by {
        lemma_height(vals[i], max);
    }
}

} // verus!
