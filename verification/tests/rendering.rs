//! The terminal view and the JSON objects, letter by letter.

use vitals::binary64::Binary64;
use vitals::delta::{ProcRate, Snapshot, SystemRate};
use vitals::procfs::{MemInfo, ProcKey};
use vitals::render::{frame, jnum, jstr, render_json, render_text, sparkline};
use vitals::rules::{Event, EventKind, Metric};
use vitals::sampler::{HistoryPoint, Shared, Update};
use vitals::time::Duration;

fn b(x: f64) -> Binary64 {
    Binary64::from_bits(x.to_bits())
}

fn process(pid: i32, comm: &str, cpu: f64, state: char) -> ProcRate {
    ProcRate {
        key: ProcKey { pid, starttime: 5 },
        pid,
        ppid: 1,
        comm: String::from(comm),
        state,
        threads: 12,
        cpu_pct: b(cpu),
        rss_bytes: 5 * 1024 * 1024,
        vsize_bytes: 9,
        read_bps: Some(b(2048.0)),
        write_bps: None,
        rchar_bps: None,
        wchar_bps: None,
        sockets: None,
        is_new: false,
    }
}

fn snapshot() -> Snapshot {
    let mut system = SystemRate::default();
    system.cpu_pct = b(12.34);
    system.per_cpu_pct = vec![b(5.5), b(100.0)];
    system.mem = MemInfo { total: 2048, available: 1024, ..Default::default() };
    system.net_rx_bps = b(1500.0);
    system.ctxt_per_sec = b(1234.5);
    system.procs_running = 3;
    system.procs_blocked = 1;
    system.proc_count = 211;
    system.vanished = 2;
    system.scan_time = Duration::from_micros(4_250);
    system.interval = Duration::from_millis(1_001);
    Snapshot { system, procs: vec![process(42, "busy", 99.95, 'R'), process(7, "dead\"", 0.0, 'Z'), process(8, "idle", 0.0, 'S')] }
}

fn event(kind: EventKind, subject: &str) -> Event {
    Event {
        kind,
        rule_name: String::from("hot"),
        subject: String::from(subject),
        metric: Metric::CpuPct,
        value: b(91.25),
        threshold: b(80.0),
        held_for: Duration::from_millis(5_600),
    }
}

fn shared() -> Shared {
    let mut s = Shared::new(4, 8);
    for cpu in [0.0, 50.0, 100.0] {
        let point = HistoryPoint { cpu_pct: b(cpu), ..Default::default() };
        let update = Update { snapshot: None, events: Vec::new(), error: None, point: Some(point) };
        assert!(s.has_room(&update));
        s.apply(update, Vec::new());
    }
    s
}

#[test]
fn the_plain_view_is_exact() {
    let text = render_text(&snapshot(), &shared(), 2, true);
    let want = "vitals   cpu  12.3%  mem  50.0% (1.0K / 2.0K)  net rx    1.5K/s tx         -\n\
procs 211  running 3  blocked 1  ctxsw 1234/s  vanished 2  scan 4.2ms  interval 1001ms\n\
cores    0:  6% 1:100% \n\
\n    PID    PPID   CPU%       RSS  TH     DISK R     DISK W  COMMAND\n     42       1  100.0      5.0M  12     2.0K/s          -  busy\n      7       1    0.0      5.0M  12     2.0K/s          -  dead\" <zombie>\n";
    assert_eq!(text, want);
}

#[test]
fn the_live_view_adds_the_sparkline() {
    let mut snap = snapshot();
    snap.system.per_cpu_pct = vec![b(1.0)];
    snap.procs.clear();
    let text = render_text(&snap, &shared(), 10, false);
    let lines: Vec<&str> = text.lines().collect();
    assert_eq!(lines[1], "cpu 60s  \u{2581}\u{2585}\u{2588}");
    assert!(!text.contains("cores"), "one core needs no line of its own");
    assert!(!text.contains("ALERTS") && !text.contains("EVENTS"));
    assert_eq!(lines.len(), 5);
}

#[test]
fn alerts_and_events_are_listed() {
    let mut s = shared();
    let events = vec![
        event(EventKind::Fired, "one"),
        event(EventKind::Cleared, "two"),
        event(EventKind::ClearedGone, "three"),
        event(EventKind::Fired, "four"),
        event(EventKind::Fired, "five"),
        event(EventKind::Fired, "six"),
    ];
    let active: Vec<(String, String, Duration)> =
        (0..9).map(|i| (format!("rule{}", i), String::from("system"), Duration::from_millis(2_500 + i))).collect();
    let update = Update { snapshot: None, events, error: None, point: None };
    assert!(s.has_room(&update));
    s.apply(update, active);
    let mut snap = snapshot();
    snap.procs.clear();
    let text = render_text(&snap, &s, 10, true);
    assert!(text.contains("\nACTIVE ALERTS (9)\n"));
    assert!(text.contains("  ! rule0            system                       firing 2s\n"));
    assert!(text.contains("  ! rule7 "));
    assert!(!text.contains("  ! rule8 "), "at most eight are shown");
    let want = "\nRECENT EVENTS\n\
\x20 FIRED   hot              six                        cpu_pct=91.2 (thr 80.0) after 6s\n\
\x20 FIRED   hot              five                       cpu_pct=91.2 (thr 80.0) after 6s\n\
\x20 FIRED   hot              four                       cpu_pct=91.2 (thr 80.0) after 6s\n\
\x20 GONE    hot              three                      cpu_pct=91.2 (thr 80.0) after 6s\n\
\x20 CLEARED hot              two                        cpu_pct=91.2 (thr 80.0) after 6s\n\n";
    assert!(text.contains(want), "{}", text);
}

#[test]
fn columns_widen_for_what_does_not_fit() {
    let mut snap = snapshot();
    snap.procs = vec![process(-12345678, "a command that is long", 123456.78, 'R')];
    let text = render_text(&snap, &shared(), 1, true);
    assert!(text.ends_with("\n-12345678       1 123456.8      5.0M  12     2.0K/s          -  a command that is long\n"), "{}", text);
}

#[test]
fn the_json_object_is_exact() {
    let mut s = shared();
    s.active_alerts = vec![
        (String::from("hot"), String::from("system"), Duration::from_millis(1_500)),
        (String::from("q\"uote"), String::from("x (pid 4)"), Duration::from_secs(0)),
    ];
    let got = render_json(&snapshot(), &s, 2);
    let want = "{\"system\":{\"cpu_pct\":12.340,\"mem_pct\":50.000,\"mem_used\":1024,\"mem_total\":2048,\"net_rx_bps\":1500.000,\"net_tx_bps\":0.000,\"proc_count\":211,\"vanished\":2,\"scan_micros\":4250},\"procs\":[{\"pid\":42,\"ppid\":1,\"comm\":\"busy\",\"cpu_pct\":99.950,\"rss\":5242880,\"threads\":12,\"read_bps\":2048.000,\"write_bps\":null},{\"pid\":7,\"ppid\":1,\"comm\":\"dead\\\"\",\"cpu_pct\":0.000,\"rss\":5242880,\"threads\":12,\"read_bps\":2048.000,\"write_bps\":null}],\"alerts\":[{\"rule\":\"hot\",\"subject\":\"system\",\"firing_secs\":1.500},{\"rule\":\"q\\\"uote\",\"subject\":\"x (pid 4)\",\"firing_secs\":0.000}]}";
    assert_eq!(got, want);
    let none = render_json(&snapshot(), &shared(), 0);
    assert!(none.ends_with("},\"procs\":[],\"alerts\":[]}"));
}

#[test]
fn json_strings_escape_what_json_forbids() {
    assert_eq!(jstr("plain caf\u{e9}"), "\"plain caf\u{e9}\"");
    assert_eq!(jstr("a\"b\\c\nd\re\tf"), "\"a\\\"b\\\\c\\nd\\re\\tf\"");
    assert_eq!(jstr("\u{0}\u{1f}\u{1b} \u{7f}"), "\"\\u0000\\u001f\\u001b \u{7f}\"");
    assert_eq!(jstr(""), "\"\"");
}

#[test]
fn json_numbers_are_finite() {
    assert_eq!(jnum(&b(1.0)), "1.000");
    assert_eq!(jnum(&b(-0.0005)), "-0.001");
    assert_eq!(jnum(&b(f64::NAN)), "null");
    assert_eq!(jnum(&b(f64::INFINITY)), "null");
}

#[test]
fn sparklines_have_a_block_for_each_value() {
    let vals: Vec<Binary64> = [0.0, 12.5, 49.9, 50.0, 100.0, 250.0, -3.0, f64::NAN].iter().map(|v| b(*v)).collect();
    let line = sparkline(&vals, &b(100.0));
    assert_eq!(line, "\u{2581}\u{2582}\u{2584}\u{2585}\u{2588}\u{2588}\u{2581}\u{2581}");
    assert_eq!(sparkline(&Vec::new(), &b(100.0)), "");
    // A full block stands for one where the maximum is not positive.
    assert_eq!(sparkline(&vec![b(1.0), b(0.5)], &b(0.0)), "\u{2588}\u{2585}");
}

#[test]
fn a_view_that_is_shown_once_is_not_drawn_over() {
    assert_eq!(frame("text", true), "text");
    assert_eq!(frame("text", false), "\x1b[H\x1b[Jtext");
}

#[test]
fn unreadable_counters_are_a_dash() {
    let mut snap = snapshot();
    let mut p = process(42, "db", 1.0, 'R');
    p.read_bps = None;
    p.write_bps = Some(b(2048.0));
    snap.procs = vec![p];
    let text = render_text(&snap, &shared(), 1, true);
    assert!(text.ends_with("     42       1    1.0      5.0M  12          -     2.0K/s  db\n"), "{}", text);
}

/// Reads one JSON value without whitespace from the front of `t` and gives back
/// what follows it.
fn json(t: &[char]) -> &[char] {
    match t[0] {
        '"' => {
            let mut i = 1;
            while t[i] != '"' {
                assert!(t[i] >= ' ');
                if t[i] == '\\' {
                    assert!("\"\\nrtu".contains(t[i + 1]));
                    i += 1;
                }
                i += 1;
            }
            &t[i + 1..]
        }
        '[' | '{' => {
            let object = t[0] == '{';
            let end = if object { '}' } else { ']' };
            if t[1] == end {
                return &t[2..];
            }
            let mut rest = t;
            loop {
                rest = &rest[1..];
                if object {
                    assert_eq!(rest[0], '"');
                    rest = json(rest);
                    assert_eq!(rest[0], ':');
                    rest = &rest[1..];
                }
                rest = json(rest);
                if rest[0] == end {
                    return &rest[1..];
                }
                assert_eq!(rest[0], ',');
            }
        }
        'n' => {
            assert_eq!(t[..4], ['n', 'u', 'l', 'l']);
            &t[4..]
        }
        _ => {
            let n = t.iter().take_while(|c| c.is_ascii_digit() || **c == '-' || **c == '.').count();
            let s: String = t[..n].iter().collect();
            let whole = s.trim_start_matches('-').split('.').next().unwrap();
            assert!(s.parse::<f64>().is_ok(), "{}", s);
            assert!(whole == "0" || !whole.starts_with('0'), "{}", s);
            &t[n..]
        }
    }
}

#[test]
fn the_json_object_is_one_line_of_json_whatever_the_names_are() {
    let names = ["", "a\"b", "\\", "\n\r\t", "\u{0}\u{1f}\u{7f}", "},{\"x\":[", "caf\u{e9} \u{1f600}"];
    let mut s = shared();
    let mut snap = snapshot();
    snap.procs.clear();
    for (i, name) in names.iter().enumerate() {
        let mut p = process(i as i32 - 3, name, [0.0, -1.5, f64::NAN, f64::INFINITY, 1e300][i % 5], 'R');
        p.threads = -(i as i64);
        snap.procs.push(p);
        s.active_alerts.push((String::from(*name), format!("{} (pid 1)", name), Duration::from_millis(i as u64)));
    }
    for top in 0..9 {
        let text: Vec<char> = render_json(&snap, &s, top).chars().collect();
        assert!(text.iter().all(|c| *c >= ' '));
        assert_eq!(text[0], '{');
        assert!(json(&text).is_empty(), "top {}", top);
    }
}
