//! Cycles of the sampler, what it shares and when it pauses.

use vitals::binary64::Binary64;
use vitals::delta::{diffable, sum_net};
use vitals::procfs::{CpuTimes, MemInfo, NetDev, PidIo, PidStat, StatFile};
use vitals::rules::{parse_rules, Engine, EventKind};
use vitals::sample::{ProcSample, ProcTable, Sample};
use vitals::sampler::{nap, pause, wait, Counts, Cycle, HistoryPoint, Pause, SamplerConfig, Shared, Update, Wait};
use vitals::time::{Duration, Instant};
use vitals::units::{parse_auxv, sys_const, ByteOrder, SysConst};

fn f(x: Binary64) -> f64 {
    f64::from_bits(x.to_bits())
}

fn consts() -> SysConst {
    sys_const(None, ByteOrder::Little, None)
}

fn at(secs: u128) -> Instant {
    Instant { nanos: secs * 1_000_000_000 }
}

fn stat(pid: i32, comm: &str, ticks: u64, pages: i64) -> PidStat {
    PidStat {
        pid,
        comm: String::from(comm),
        state: 'S',
        ppid: 1,
        utime: ticks,
        stime: 0,
        num_threads: 2,
        starttime: 9,
        vsize: 77,
        rss_pages: pages,
    }
}

fn sample(secs: u128, user: u64, procs: Vec<(PidStat, Option<PidIo>)>) -> Sample {
    let mut table = ProcTable::new();
    for (stat, io) in procs {
        table.insert(stat.key(), ProcSample { stat, io, sockets: Some(3) });
    }
    Sample {
        at: at(secs),
        cpu: StatFile {
            total: CpuTimes { user, idle: 100 * secs as u64 - user, ..Default::default() },
            per_cpu: Vec::new(),
            ctxt: 0,
            procs_running: 0,
            procs_blocked: 0,
        },
        mem: MemInfo { total: 100, available: 25, ..Default::default() },
        nets: Vec::new(),
        procs: table,
        vanished: 1,
        io_denied: 0,
        scan_time: Duration::from_micros(1_999),
    }
}

#[test]
fn the_first_sample_is_only_a_baseline() {
    let (rules, _) = parse_rules("alert hot system cpu_pct > 80 for 0s");
    let mut cycle = Cycle::new(Engine::new(rules), consts());
    let u = cycle.advance(Ok(sample(10, 0, Vec::new())), at(10));
    assert!(u.snapshot.is_none() && u.events.is_empty() && u.error.is_none() && u.point.is_none());
    assert_eq!(cycle.engine.ticks(), 0);

    // A failed cycle keeps the baseline.
    let u = cycle.advance(Err(String::from("no such file")), at(11));
    assert!(u.snapshot.is_none() && u.events.is_empty());
    assert_eq!(u.error, Some(String::from("no such file")));

    let cur = sample(12, 180, Vec::new());
    assert!(diffable(cycle.prev.as_ref().unwrap(), &cur, &consts()));
    let u = cycle.advance(Ok(cur), at(12));
    let snap = u.snapshot.unwrap();
    assert_eq!(f(snap.system.cpu_pct), 90.0);
    assert_eq!(snap.system.interval, Duration::from_secs(2));
    assert_eq!(u.events.len(), 1);
    assert_eq!(u.events[0].kind, EventKind::Fired);
    let p = u.point.unwrap();
    assert_eq!(f(p.cpu_pct), 90.0);
    assert_eq!(f(p.mem_pct), 75.0);
    assert_eq!(p.scan_micros, 1_999);
    assert_eq!(p.proc_count, 0);
    assert_eq!(cycle.engine.ticks(), 1);

    let active = cycle.active(at(15));
    assert_eq!(active.len(), 1);
    assert_eq!(active[0].0, "hot");
    assert_eq!(active[0].1, "system");
    assert_eq!(active[0].2, Duration::from_secs(3));
}

#[test]
fn updates_are_handed_over() {
    let mut s = Shared::new(2, 0);
    assert!(s.latest.is_none() && s.last_error.is_none() && s.active_alerts.is_empty());
    assert_eq!(s.history.capacity(), 2);
    assert_eq!(s.events.capacity(), 1);

    let (rules, _) = parse_rules("alert hot system cpu_pct > 10 for 0s clear 5");
    let mut cycle = Cycle::new(Engine::new(rules), consts());
    cycle.advance(Ok(sample(1, 0, Vec::new())), at(1));
    for secs in 2..6u128 {
        let user = 20 * secs as u64;
        let update = cycle.advance(Ok(sample(secs, user, Vec::new())), at(secs));
        let active = cycle.active(at(secs));
        assert!(s.has_room(&update));
        s.apply(update, active);
    }
    assert_eq!(s.history.len(), 2);
    assert_eq!(s.history.total_pushed(), 4);
    assert_eq!(s.events.len(), 1);
    assert!(s.latest.is_some());
    assert_eq!(s.active_alerts.len(), 1);

    s.apply(cycle.advance(Err(String::from("boom")), at(7)), Vec::new());
    assert_eq!(s.last_error, Some(String::from("boom")));
    assert!(s.latest.is_some(), "the latest snapshot stays");
    assert!(s.active_alerts.is_empty());
    assert_eq!(s.history.total_pushed(), 4);
}

#[test]
fn defaults_are_one_second_and_bounded_logs() {
    let c = SamplerConfig::default();
    assert_eq!(c.interval, Duration::from_secs(1));
    assert_eq!(c.history_len, 300);
    assert_eq!(c.event_log_len, 200);
    let p = HistoryPoint::default();
    assert_eq!((f(p.cpu_pct), f(p.mem_pct), f(p.net_rx_bps), f(p.net_tx_bps), p.proc_count, p.scan_micros), (0.0, 0.0, 0.0, 0.0, 0, 0));
    let update = Update { snapshot: None, events: Vec::new(), error: None, point: Some(p) };
    assert!(Shared::new(1, 1).has_room(&update));
}

#[test]
fn work_and_sleep_make_up_the_interval() {
    let s = Duration::from_secs(1);
    assert_eq!(pause(s, Duration::from_millis(300)), Pause::Sleep(Duration::from_millis(700)));
    assert_eq!(pause(s, Duration::zero()), Pause::Sleep(s));
    assert_eq!(pause(s, s), Pause::Overrun);
    assert_eq!(pause(s, Duration::from_secs(2)), Pause::Overrun);
    assert_eq!(pause(Duration::zero(), Duration::zero()), Pause::Overrun);
}

#[test]
fn a_sleep_naps_until_it_is_over_or_stopped() {
    let rest = Duration::from_millis(120);
    let ms = |n: u128| Instant { nanos: 1_000_000_000 + n * 1_000_000 };
    assert_eq!(wait(ms(0), rest, ms(0), false), Wait::Nap);
    assert_eq!(nap(ms(0), rest, ms(0)), Duration::from_millis(50));
    assert_eq!(nap(ms(0), rest, ms(50)), Duration::from_millis(50));
    assert_eq!(nap(ms(0), rest, ms(100)), Duration::from_millis(20));
    assert_eq!(nap(ms(0), rest, ms(130)), Duration::zero());
    assert_eq!(wait(ms(0), rest, ms(119), true), Wait::Stop);
    assert_eq!(wait(ms(0), rest, ms(120), true), Wait::Done);
    assert_eq!(wait(ms(0), rest, ms(500), false), Wait::Done);
}

#[test]
fn rates_need_counters_that_were_readable_before() {
    let c = consts();
    let io = |n: u64| Some(PidIo { rchar: n, wchar: 2 * n, read_bytes: 4 * n, write_bytes: 8 * n });
    let a = sample(1, 0, vec![(stat(1, "both", 0, 1), io(10)), (stat(2, "lost", 0, 1), io(10)), (stat(3, "found", 0, 1), None)]);
    let b = sample(3, 0, vec![
        (stat(1, "both", 50, 1), io(30)),
        (stat(2, "lost", 0, -4), None),
        (stat(3, "found", 0, 1), io(10)),
        (stat(4, "new", 0, 3), io(10)),
        (stat(5, "blind", 0, 1), None),
    ]);
    assert!(diffable(&a, &b, &c));
    let s = vitals::delta::diff(&a, &b, &c);
    assert_eq!(s.system.proc_count, 5);
    assert_eq!(s.system.vanished, 1);
    let find = |name: &str| s.procs.iter().find(|p| p.comm == name).unwrap();
    let both = find("both");
    assert_eq!(f(both.cpu_pct), 25.0);
    assert_eq!(both.read_bps.map(f), Some(40.0));
    assert_eq!(both.write_bps.map(f), Some(80.0));
    assert_eq!(both.rchar_bps.map(f), Some(10.0));
    assert_eq!(both.wchar_bps.map(f), Some(20.0));
    assert_eq!((both.threads, both.vsize_bytes, both.sockets, both.rss_bytes), (2, 77, Some(3), 4096));
    assert_eq!(find("lost").read_bps, None);
    assert_eq!(find("lost").rss_bytes, 0);
    assert_eq!(find("found").read_bps.map(f), Some(0.0));
    assert_eq!(find("new").read_bps.map(f), Some(0.0));
    assert!(find("new").is_new && !find("found").is_new);
    assert_eq!(find("blind").read_bps, None);
    let names: Vec<&str> = s.procs.iter().map(|p| p.comm.as_str()).collect();
    assert_eq!((names[0], names[1]), ("both", "new"), "by CPU, then by resident size");
    assert_eq!(names[4], "lost");
}

#[test]
fn two_samples_at_one_instant_have_no_rates() {
    let c = consts();
    let a = sample(1, 0, vec![(stat(1, "x", 0, 1), None)]);
    let b = sample(1, 50, vec![(stat(1, "x", 500, 1), None)]);
    let s = vitals::delta::diff(&a, &b, &c);
    assert_eq!(f(s.procs[0].cpu_pct), 0.0);
    assert!(!s.procs[0].is_new);
    assert_eq!(f(s.system.ctxt_per_sec), 0.0);
    // An earlier second sample counts as the same instant.
    let s = vitals::delta::diff(&b, &sample(0, 0, Vec::new()), &c);
    assert_eq!(s.system.interval, Duration::zero());
}

#[test]
fn what_does_not_fit_the_word_is_found_out() {
    let c = consts();
    let a = sample(1, 0, vec![(stat(1, "x", 0, 1), None)]);
    assert!(!diffable(&a, &sample(2, 0, vec![(stat(1, "x", 0, i64::MAX), None)]), &c));
    let mut big = stat(1, "x", u64::MAX, 1);
    big.stime = 1;
    assert!(!diffable(&a, &sample(2, 0, vec![(big.clone(), None)]), &c));
    // The time of a new process is not looked at.
    big.pid = 2;
    assert!(diffable(&a, &sample(2, 0, vec![(big, None)]), &c));
    let mut b = sample(2, 0, Vec::new());
    b.cpu.total.nice = u64::MAX;
    assert!(!diffable(&a, &b, &c));
    let mut zero = c;
    zero.clk_tck = 0;
    assert!(!diffable(&a, &sample(2, 0, Vec::new()), &zero));

    let dev = |name: &str, n: u64| NetDev { name: String::from(name), rx_bytes: n, tx_errs: 1, ..Default::default() };
    assert_eq!(sum_net(&vec![dev("a", 5), dev("lo", 7), dev("b", 6)]), Some((11, 0, 0, 2)));
    assert_eq!(sum_net(&vec![dev("a", u64::MAX), dev("lo", 7)]), Some((u64::MAX, 0, 0, 1)));
    assert_eq!(sum_net(&vec![dev("a", u64::MAX), dev("b", 1)]), None);
}

#[test]
fn each_core_is_compared_with_itself() {
    let core = |user: u64, idle: u64| CpuTimes { user, idle, ..Default::default() };
    let mut a = sample(1, 0, Vec::new());
    let mut b = sample(2, 0, Vec::new());
    a.cpu.per_cpu = vec![core(0, 0), core(50, 50)];
    b.cpu.per_cpu = vec![core(30, 70), core(40, 60), core(1, 1)];
    let s = vitals::delta::diff(&a, &b, &consts());
    let got: Vec<f64> = s.system.per_cpu_pct.iter().map(|x| f(*x)).collect();
    assert_eq!(got, vec![30.0, 0.0], "only the cores that both samples have");
}

#[test]
fn the_auxiliary_vector_gives_the_units() {
    let mut words: Vec<u64> = vec![6, 16384, 17, 250, 3, 99, 0, 0, 17, 1000];
    let bytes = |w: &Vec<u64>| w.iter().flat_map(|x| x.to_le_bytes()).collect::<Vec<u8>>();
    assert_eq!(parse_auxv(&bytes(&words), ByteOrder::Little), (Some(250), Some(16384)));
    let c = sys_const(Some(&bytes(&words)), ByteOrder::Little, Some("cpu 1\ncpu0 1\ncpu1 1\n"));
    assert_eq!((c.clk_tck, c.page_size, c.ncpu), (250, 16384, 2));
    let big: Vec<u8> = words.iter().flat_map(|x| x.to_be_bytes()).collect();
    assert_eq!(parse_auxv(&big, ByteOrder::Big), (Some(250), Some(16384)));
    words[1] = 0;
    words[3] = 0;
    let c = sys_const(Some(&bytes(&words)), ByteOrder::Little, Some(""));
    assert_eq!((c.clk_tck, c.page_size, c.ncpu), (100, 4096, 1));
    let cut = bytes(&vec![17, 250]);
    assert_eq!(parse_auxv(&cut[..15], ByteOrder::Little), (None, None));
}

#[test]
fn cycles_and_overruns_are_counted() {
    let s = Duration::from_secs(1);
    let mut c = Counts::new();
    c.count(pause(s, Duration::from_millis(10)));
    assert_eq!(c, Counts { ticks: 1, overruns: 0 });
    c.count(pause(s, Duration::from_secs(7)));
    assert_eq!(c, Counts { ticks: 2, overruns: 1 });
    c.count(pause(s, Duration::from_millis(10)));
    assert_eq!(c, Counts { ticks: 3, overruns: 1 });
    let mut full = Counts { ticks: u64::MAX, overruns: u64::MAX };
    full.count(Pause::Overrun);
    assert_eq!(full, Counts { ticks: 0, overruns: 0 });
}
