//! The engine: what fires, what clears and what is gone.

use vitals::binary64::Binary64;
use vitals::delta::{ProcRate, Snapshot, SystemRate};
use vitals::procfs::{MemInfo, ProcKey};
use vitals::rules::{parse_rules, Engine, Event, EventKind, Metric};
use vitals::time::{Duration, Instant};

fn b(x: f64) -> Binary64 {
    Binary64::from_bits(x.to_bits())
}

fn f(x: Binary64) -> f64 {
    f64::from_bits(x.to_bits())
}

fn at(secs: u128) -> Instant {
    Instant { nanos: secs * 1_000_000_000 }
}

fn process(pid: i32, starttime: u64, comm: &str, cpu: f64) -> ProcRate {
    ProcRate {
        key: ProcKey { pid, starttime },
        pid,
        ppid: 1,
        comm: String::from(comm),
        state: 'R',
        threads: 4,
        cpu_pct: b(cpu),
        rss_bytes: 1000,
        vsize_bytes: 0,
        read_bps: Some(b(10.0)),
        write_bps: None,
        rchar_bps: None,
        wchar_bps: None,
        sockets: None,
        is_new: false,
    }
}

fn snap(procs: Vec<ProcRate>) -> Snapshot {
    let mut system = SystemRate::default();
    system.cpu_pct = b(50.0);
    system.mem = MemInfo { total: 100, available: 60, ..Default::default() };
    system.net_rx_bps = b(100.0);
    system.net_tx_bps = b(200.0);
    system.proc_count = 9;
    Snapshot { system, procs }
}

fn engine(text: &str) -> Engine {
    let (rules, errs) = parse_rules(text);
    assert!(errs.is_empty());
    Engine::new(rules)
}

fn kinds(events: &[Event]) -> Vec<EventKind> {
    events.iter().map(|e| e.kind).collect()
}

#[test]
fn every_metric_is_looked_at_in_its_place() {
    for (rule, value) in [
        ("system cpu_pct > 49", 50.0),
        ("system mem_pct > 39", 40.0),
        ("system net_rx_bps > 99", 100.0),
        ("system net_tx_bps > 199", 200.0),
        ("system proc_count > 8", 9.0),
        ("process:* cpu_pct > 4", 5.0),
        ("process:* rss > 999", 1000.0),
        ("process:* read_bps > 9", 10.0),
        ("process:* threads > 3", 4.0),
    ] {
        let mut e = engine(&format!("alert r {} for 0s", rule));
        let ev = e.evaluate(&snap(vec![process(3, 4, "x", 5.0)]), at(1));
        assert_eq!(ev.len(), 1, "{}", rule);
        assert_eq!(f(ev[0].value), value, "{}", rule);
        assert_eq!(ev[0].rule_name, "r");
        assert_eq!(ev[0].held_for, Duration::zero());
    }
    // No such value for the system as a whole, and none that could be read.
    for rule in ["system rss > 0", "system threads > 0", "system read_bps < 1K", "process:* write_bps < 1K"] {
        let mut e = engine(&format!("alert r {} for 0s", rule));
        assert!(e.evaluate(&snap(vec![process(3, 4, "x", 5.0)]), at(1)).is_empty(), "{}", rule);
    }
}

#[test]
fn a_rule_watches_the_processes_it_names() {
    let mut e = engine("alert one process:a cpu > 1 for 0s\nalert all process:* cpu > 1 for 0s\n");
    let ev = e.evaluate(&snap(vec![process(1, 1, "a", 5.0), process(2, 1, "b", 5.0)]), at(1));
    let got: Vec<(String, String)> = ev.iter().map(|x| (x.rule_name.clone(), x.subject.clone())).collect();
    let s = |x: &str| String::from(x);
    assert_eq!(got, vec![
        (s("one"), s("a (pid 1)")),
        (s("all"), s("a (pid 1)")),
        (s("all"), s("b (pid 2)")),
    ]);
    assert_eq!(e.active_count(), 3);
}

#[test]
fn a_firing_alert_reports_how_long_the_condition_held() {
    let mut e = engine("alert r system cpu < 60 for 3s clear 70\n");
    let mut s = snap(Vec::new());
    assert!(e.evaluate(&s, at(10)).is_empty());
    let ev = e.evaluate(&s, at(13));
    assert_eq!(kinds(&ev), vec![EventKind::Fired]);
    assert_eq!(ev[0].held_for, Duration::from_secs(3));
    assert_eq!(f(ev[0].threshold), 60.0);
    // Back over the threshold and not past the clear value.
    s.system.cpu_pct = b(65.0);
    assert!(e.evaluate(&s, at(14)).is_empty());
    // At the clear value and not past it.
    s.system.cpu_pct = b(70.0);
    assert!(e.evaluate(&s, at(15)).is_empty());
    s.system.cpu_pct = b(70.5);
    let ev = e.evaluate(&s, at(20));
    assert_eq!(kinds(&ev), vec![EventKind::Cleared]);
    assert_eq!(f(ev[0].threshold), 70.0);
    assert_eq!(f(ev[0].value), 70.5);
    assert_eq!(ev[0].held_for, Duration::from_secs(7));
    assert_eq!(e.active_count(), 0);
    assert_eq!(e.ticks(), 5);
}

#[test]
fn fired_and_cleared_alternate_whatever_the_values_do() {
    let mut e = engine("alert r system cpu > 50 for 2s clear 40\n");
    let mut s = snap(Vec::new());
    let mut seen: Vec<EventKind> = Vec::new();
    let mut x = 17u64;
    for secs in 0..2000u128 {
        x = x.wrapping_mul(6364136223846793005).wrapping_add(99);
        s.system.cpu_pct = b(if (secs / 7) % 2 == 0 { 60.0 } else { ((x >> 33) % 100) as f64 });
        seen.extend(kinds(&e.evaluate(&s, at(secs))));
    }
    assert!(seen.len() > 20);
    for (i, k) in seen.iter().enumerate() {
        assert_eq!(*k, if i % 2 == 0 { EventKind::Fired } else { EventKind::Cleared });
    }
    assert_eq!(e.active_count(), seen.len() % 2);
}

#[test]
fn alerts_of_processes_that_are_gone_clear_each_once() {
    let mut e = engine("alert r process:* cpu > 1 for 0s\nalert p process:* cpu > 1 for 9s\n");
    let many: Vec<ProcRate> = (1..6).map(|i| process(i, 100 + i as u64, "w", 5.0)).collect();
    assert_eq!(e.evaluate(&snap(many), at(1)).len(), 5);
    // One stays, one comes back under its PID as another process.
    let ev = e.evaluate(&snap(vec![process(2, 102, "w", 5.0), process(3, 999, "w", 0.5)]), at(4));
    assert_eq!(ev.len(), 4);
    let mut gone: Vec<String> = ev.iter().map(|x| x.subject.clone()).collect();
    gone.sort();
    assert_eq!(gone, vec!["w (pid 1)", "w (pid 3)", "w (pid 4)", "w (pid 5)"]);
    for x in &ev {
        assert_eq!(x.kind, EventKind::ClearedGone);
        assert_eq!(f(x.value), 0.0);
        assert_eq!(f(x.threshold), 1.0);
        assert_eq!(x.metric, Metric::CpuPct);
        assert_eq!(x.held_for, Duration::from_secs(3));
    }
    assert_eq!(e.active_count(), 1);
    assert!(e.evaluate(&snap(vec![process(2, 102, "w", 5.0)]), at(5)).is_empty());
}

#[test]
fn subjects_do_not_disturb_each_other() {
    let mut together = engine("alert r process:* cpu > 50 for 2s\n");
    let mut alone = engine("alert r process:* cpu > 50 for 2s\n");
    for secs in 0..30u128 {
        let mine = process(7, 7, "m", if secs % 11 < 6 { 80.0 } else { 20.0 });
        let other = process(8, 8, "o", if secs % 3 == 0 { 80.0 } else { 20.0 });
        let a = together.evaluate(&snap(vec![other, mine.clone()]), at(secs));
        let c = alone.evaluate(&snap(vec![mine]), at(secs));
        let a: Vec<EventKind> = kinds(&a.into_iter().filter(|x| x.subject == "m (pid 7)").collect::<Vec<_>>());
        assert_eq!(a, kinds(&c), "at {}", secs);
    }
}

#[test]
fn the_longest_active_alerts_come_first() {
    let mut e = engine("alert r process:* cpu > 1 for 0s\n");
    e.evaluate(&snap(vec![process(5, 1, "a", 5.0)]), at(1));
    e.evaluate(&snap(vec![process(5, 1, "a", 5.0), process(1, 1, "b", 5.0)]), at(3));
    e.evaluate(&snap(vec![process(5, 1, "a", 5.0), process(1, 1, "b", 5.0), process(3, 1, "c", 5.0)]), at(4));
    let got: Vec<(String, u128)> = e.active(at(10)).into_iter().map(|(_, s, d, _)| (s, d.nanos / 1_000_000_000)).collect();
    let s = |x: &str| String::from(x);
    assert_eq!(got, vec![(s("a (pid 5)"), 9), (s("b (pid 1)"), 7), (s("c (pid 3)"), 6)]);
    assert_eq!(e.active(at(10))[0].3, at(1));
    assert_eq!(e.active(at(0))[0].2, Duration::zero());
}

#[test]
fn nothing_compares_with_not_a_number() {
    let mut e = engine("alert a system cpu > nan for 0s\nalert b system cpu > 10 for 0s\n");
    let mut s = snap(Vec::new());
    assert_eq!(e.evaluate(&s, at(1)).len(), 1);
    // It is not below the clear value, so the active alert stays.
    s.system.cpu_pct = b(f64::NAN);
    assert!(e.evaluate(&s, at(2)).is_empty());
    assert_eq!(e.active_count(), 1);
    s.system.cpu_pct = b(9.0);
    assert_eq!(kinds(&e.evaluate(&s, at(3))), vec![EventKind::Cleared]);
}

#[test]
fn an_alert_clears_only_below_its_clear_value() {
    let mut e = engine("alert hot system cpu_pct > 80 for 0s clear 60\n");
    let mut s = snap(Vec::new());
    s.system.cpu_pct = b(81.0);
    assert_eq!(kinds(&e.evaluate(&s, at(1))), vec![EventKind::Fired]);
    s.system.cpu_pct = b(60.0);
    assert!(e.evaluate(&s, at(2)).is_empty());
    assert_eq!(e.active_count(), 1);
    s.system.cpu_pct = b(59.0);
    assert_eq!(kinds(&e.evaluate(&s, at(3))), vec![EventKind::Cleared]);
    assert_eq!(e.active_count(), 0);
}

#[test]
fn an_alert_stays_while_its_process_is_there_and_cannot_be_read() {
    let mut e = engine("alert rd process:db read_bps > 100 for 0s\nalert slow process:db read_bps > 100 for 5s\n");
    let db = |read: Option<f64>| {
        let mut p = process(7, 1, "db", 0.0);
        p.read_bps = read.map(b);
        snap(vec![p])
    };
    assert_eq!(kinds(&e.evaluate(&db(Some(500.0)), at(1))), vec![EventKind::Fired]);
    assert!(e.evaluate(&db(None), at(2)).is_empty());
    assert!(e.evaluate(&db(None), at(3)).is_empty());
    assert_eq!(e.active_count(), 1);
    assert_eq!(e.active(at(4))[0].2, Duration::from_secs(3));
    // The condition was not known to hold in between, so it starts from scratch.
    assert!(e.evaluate(&db(Some(500.0)), at(7)).is_empty());
    assert_eq!(e.active_count(), 1);
    assert_eq!(kinds(&e.evaluate(&db(Some(50.0)), at(8))), vec![EventKind::Cleared]);

    assert_eq!(kinds(&e.evaluate(&db(Some(500.0)), at(9))), vec![EventKind::Fired]);
    assert!(e.evaluate(&db(None), at(10)).is_empty());
    let ev = e.evaluate(&snap(Vec::new()), at(11));
    assert_eq!(kinds(&ev), vec![EventKind::ClearedGone]);
    assert_eq!(ev[0].held_for, Duration::from_secs(2));
    assert_eq!(e.active_count(), 0);
}

#[test]
fn alerts_balance_in_every_evaluation() {
    let mut e = engine("alert a process:* cpu > 50 for 2s clear 30\nalert b process:* read_bps > 20 for 0s\n");
    let mut x = 5u64;
    for secs in 0..500u128 {
        let mut procs: Vec<ProcRate> = Vec::new();
        for pid in 1..6 {
            x = x.wrapping_mul(6364136223846793005).wrapping_add(1442695040888963407);
            if (x >> 40) % 5 != 0 {
                let mut p = process(pid, 1, "w", ((x >> 33) % 100) as f64);
                p.read_bps = if (x >> 50) % 4 == 0 { None } else { Some(b(((x >> 20) % 40) as f64)) };
                procs.push(p);
            }
        }
        let before = e.active_count();
        let ev = kinds(&e.evaluate(&snap(procs), at(secs)));
        let n = |k: EventKind| ev.iter().filter(|x| **x == k).count();
        assert_eq!(e.active_count() + n(EventKind::Cleared) + n(EventKind::ClearedGone), before + n(EventKind::Fired));
    }
}

#[test]
fn an_alert_clears_when_its_process_takes_another_name() {
    let mut e = engine("alert hot process:db cpu > 50 for 0s\nalert any process:* cpu > 50 for 0s\n");
    assert_eq!(kinds(&e.evaluate(&snap(vec![process(7, 1, "db", 90.0)]), at(1))), vec![EventKind::Fired, EventKind::Fired]);
    // The same process under another name: one rule no longer watches it, and
    // the value has come down for the other.
    let ev = e.evaluate(&snap(vec![process(7, 1, "gcc", 0.0)]), at(4));
    assert_eq!(kinds(&ev), vec![EventKind::Cleared, EventKind::ClearedGone]);
    assert_eq!(ev[1].rule_name, "hot");
    assert_eq!(ev[1].subject, "db (pid 7)");
    assert_eq!(ev[1].held_for, Duration::from_secs(3));
    assert_eq!(e.active_count(), 0);
    for secs in 5..9 {
        assert!(e.evaluate(&snap(vec![process(7, 1, "gcc", 0.0)]), at(secs)).is_empty());
    }
    // Back under the first name it starts from scratch.
    let ev = e.evaluate(&snap(vec![process(7, 1, "db", 90.0)]), at(9));
    assert_eq!(kinds(&ev), vec![EventKind::Fired, EventKind::Fired]);
    assert_eq!(ev[0].held_for, Duration::zero());
}

#[test]
fn an_alert_clears_when_its_process_takes_another_name_and_cannot_be_read() {
    let mut e = engine("alert rd process:db read_bps > 5 for 0s\n");
    assert_eq!(e.evaluate(&snap(vec![process(7, 1, "db", 0.0)]), at(1)).len(), 1);
    let mut p = process(7, 1, "gcc", 0.0);
    p.read_bps = None;
    assert_eq!(kinds(&e.evaluate(&snap(vec![p]), at(2))), vec![EventKind::ClearedGone]);
    assert_eq!(e.active_count(), 0);
}

#[test]
fn an_alert_clears_when_its_process_is_new_again() {
    let mut e = engine("alert hot process:db cpu > 50 for 0s\n");
    assert_eq!(e.evaluate(&snap(vec![process(7, 1, "db", 90.0)]), at(1)).len(), 1);
    let mut p = process(7, 1, "db", 0.0);
    p.is_new = true;
    let ev = e.evaluate(&snap(vec![p]), at(2));
    assert_eq!(kinds(&ev), vec![EventKind::ClearedGone]);
    assert_eq!(e.active_count(), 0);
}

#[test]
fn each_subject_fires_and_clears_in_turn() {
    let mut e = engine("alert a process:w cpu > 50 for 2s clear 30\nalert b process:w read_bps > 20 for 0s\n");
    let mut seen: Vec<(String, EventKind)> = Vec::new();
    let mut x = 11u64;
    for secs in 0..500u128 {
        let mut procs: Vec<ProcRate> = Vec::new();
        for pid in 1..6 {
            x = x.wrapping_mul(6364136223846793005).wrapping_add(1442695040888963407);
            if (x >> 40) % 5 != 0 {
                let name = if (x >> 45) % 9 == 0 { "v" } else { "w" };
                let mut p = process(pid, 1, name, ((x >> 33) % 100) as f64);
                p.read_bps = if (x >> 50) % 4 == 0 { None } else { Some(b(((x >> 20) % 40) as f64)) };
                p.is_new = (x >> 54) % 13 == 0;
                procs.push(p);
            }
        }
        for ev in e.evaluate(&snap(procs), at(secs)) {
            seen.push((format!("{} {}", ev.rule_name, ev.subject), ev.kind));
        }
    }
    let mut active = 0;
    for rule in ["a", "b"] {
        for pid in 1..6 {
            let id = format!("{} w (pid {})", rule, pid);
            let own: Vec<EventKind> = seen.iter().filter(|s| s.0 == id).map(|s| s.1).collect();
            assert!(own.len() > 2, "{}", id);
            for (i, k) in own.iter().enumerate() {
                assert_eq!(*k == EventKind::Fired, i % 2 == 0, "{} at {}", id, i);
            }
            active += own.len() % 2;
        }
    }
    assert_eq!(e.active_count(), active);
}
