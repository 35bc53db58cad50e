//! Turning cumulative counters into rates.
//!
//! Everything in `/proc` is monotonic since boot. A rate exists only between
//! two samples.
//!
//! * Per-process CPU is normalised against wall time: 100% is one core fully
//!   consumed, and an 8-threaded process on an 8-core box can read 800%.
//! * System CPU is the ratio of busy to total time, both from the same line of
//!   the same read.
//! * Every subtraction is saturating. Counters can appear to move backwards,
//!   and zero is a wrong but harmless single sample.

use vstd::prelude::*;

use crate::binary64::{
    law_representable_is_exact, law_small_products_are_exact, law_small_whole_numbers_are_exact,
    law_whole_numbers_are_finite, lemma_one_times, lemma_product_is_a_number, lemma_product_stays_positive,
    lemma_quotient_by_itself, lemma_quotient_is_a_number, lemma_sum_is_a_number, lemma_units_order, lemma_whole_number_is_at_least_one,
    lemma_zero_over, of_int, percent, Binary64,
};
use crate::procfs::{net_views, CpuTimes, MemInfo, NetDev, NetDevView, PidIo, ProcKey};
use crate::sample::{ProcSample, ProcSampleView, Sample, SampleView};
use crate::table::lookup;
use crate::text::{copy_str, same_str};
use crate::time::{secs_real, Duration};
use crate::units::SysConst;

verus! {

/// What one process did between two samples.
#[derive(Debug, Clone)]
pub struct ProcRate {
    pub key: ProcKey,
    pub pid: i32,
    pub ppid: i32,
    pub comm: String,
    pub state: char,
    pub threads: i64,
    /// 100.0 is one core fully consumed.
    pub cpu_pct: Binary64,
    pub rss_bytes: u64,
    pub vsize_bytes: u64,
    /// Actual block-layer traffic. None when `/proc/[pid]/io` was unreadable.
    pub read_bps: Option<Binary64>,
    pub write_bps: Option<Binary64>,
    /// Traffic of read and write calls, which takes in page cache, pipes and
    /// sockets.
    pub rchar_bps: Option<Binary64>,
    pub wchar_bps: Option<Binary64>,
    pub sockets: Option<usize>,
    /// First seen in this interval, so its CPU rate is not yet meaningful.
    pub is_new: bool,
}

/// The contents of a `ProcRate`.
pub struct ProcRateView {
    pub key: ProcKey,
    pub pid: i32,
    pub ppid: i32,
    pub comm: Seq<char>,
    pub state: char,
    pub threads: i64,
    pub cpu_pct: Binary64,
    pub rss_bytes: u64,
    pub vsize_bytes: u64,
    pub read_bps: Option<Binary64>,
    pub write_bps: Option<Binary64>,
    pub rchar_bps: Option<Binary64>,
    pub wchar_bps: Option<Binary64>,
    pub sockets: Option<usize>,
    pub is_new: bool,
}

impl View for ProcRate {
    type V = ProcRateView;

    open spec fn view(&self) -> ProcRateView {
        ProcRateView {
            key: self.key,
            pid: self.pid,
            ppid: self.ppid,
            comm: self.comm@,
            state: self.state,
            threads: self.threads,
            cpu_pct: self.cpu_pct,
            rss_bytes: self.rss_bytes,
            vsize_bytes: self.vsize_bytes,
            read_bps: self.read_bps,
            write_bps: self.write_bps,
            rchar_bps: self.rchar_bps,
            wchar_bps: self.wchar_bps,
            sockets: self.sockets,
            is_new: self.is_new,
        }
    }
}

/// What the system as a whole did between two samples.
#[derive(Debug, Clone)]
pub struct SystemRate {
    pub cpu_pct: Binary64,
    pub per_cpu_pct: Vec<Binary64>,
    pub mem: MemInfo,
    pub net_rx_bps: Binary64,
    pub net_tx_bps: Binary64,
    pub net_rx_errs: u64,
    pub net_tx_errs: u64,
    pub ctxt_per_sec: Binary64,
    pub procs_running: u64,
    pub procs_blocked: u64,
    pub proc_count: usize,
    pub vanished: u32,
    pub scan_time: Duration,
    pub interval: Duration,
}

/// The contents of a `SystemRate`.
pub struct SystemRateView {
    pub cpu_pct: Binary64,
    pub per_cpu_pct: Seq<Binary64>,
    pub mem: MemInfo,
    pub net_rx_bps: Binary64,
    pub net_tx_bps: Binary64,
    pub net_rx_errs: u64,
    pub net_tx_errs: u64,
    pub ctxt_per_sec: Binary64,
    pub procs_running: u64,
    pub procs_blocked: u64,
    pub proc_count: usize,
    pub vanished: u32,
    pub scan_time: Duration,
    pub interval: Duration,
}

impl View for SystemRate {
    type V = SystemRateView;

    open spec fn view(&self) -> SystemRateView {
        SystemRateView {
            cpu_pct: self.cpu_pct,
            per_cpu_pct: self.per_cpu_pct@,
            mem: self.mem,
            net_rx_bps: self.net_rx_bps,
            net_tx_bps: self.net_tx_bps,
            net_rx_errs: self.net_rx_errs,
            net_tx_errs: self.net_tx_errs,
            ctxt_per_sec: self.ctxt_per_sec,
            procs_running: self.procs_running,
            procs_blocked: self.procs_blocked,
            proc_count: self.proc_count,
            vanished: self.vanished,
            scan_time: self.scan_time,
            interval: self.interval,
        }
    }
}

impl Default for SystemRate {
    fn default() -> (r: SystemRate)
        ensures
            r@ == (SystemRateView {
                cpu_pct: of_int(0),
                per_cpu_pct: Seq::empty(),
                mem: MemInfo {
                    total: 0,
                    free: 0,
                    available: 0,
                    buffers: 0,
                    cached: 0,
                    swap_total: 0,
                    swap_free: 0,
                },
                net_rx_bps: of_int(0),
                net_tx_bps: of_int(0),
                net_rx_errs: 0,
                net_tx_errs: 0,
                ctxt_per_sec: of_int(0),
                procs_running: 0,
                procs_blocked: 0,
                proc_count: 0,
                vanished: 0,
                scan_time: (Duration { nanos: 0 }),
                interval: (Duration { nanos: 0 }),
            }),
    {
        let zero = Binary64::from_u64(0);
        SystemRate {
            cpu_pct: zero,
            per_cpu_pct: Vec::new(),
            mem: MemInfo::default(),
            net_rx_bps: zero,
            net_tx_bps: zero,
            net_rx_errs: 0,
            net_tx_errs: 0,
            ctxt_per_sec: zero,
            procs_running: 0,
            procs_blocked: 0,
            proc_count: 0,
            vanished: 0,
            scan_time: Duration::zero(),
            interval: Duration::zero(),
        }
    }
}

/// The rates between two samples. The processes come in descending order of
/// CPU, then of resident size.
#[derive(Debug, Clone)]
pub struct Snapshot {
    pub system: SystemRate,
    pub procs: Vec<ProcRate>,
}

/// The contents of a `Snapshot`.
pub struct SnapshotView {
    pub system: SystemRateView,
    pub procs: Seq<ProcRateView>,
}

/// The contents of a list of rates.
pub open spec fn rate_views(v: Seq<ProcRate>) -> Seq<ProcRateView> {
    v.map_values(|p: ProcRate| p@)
}

impl View for Snapshot {
    type V = SnapshotView;

    open spec fn view(&self) -> SnapshotView {
        SnapshotView { system: self.system@, procs: rate_views(self.procs@) }
    }
}

// ------------------------------------------------------------- arithmetic --

/// `a - b`, or zero where that is negative.
pub open spec fn less_or_zero(a: nat, b: nat) -> nat {
    if a >= b {
        (a - b) as nat
    } else {
        0
    }
}

/// The share of busy time, in percent; zero where no time passed.
pub open spec fn share(busy_delta: nat, total_delta: nat) -> Binary64 {
    if total_delta == 0 {
        of_int(0)
    } else {
        percent(busy_delta, total_delta).held_between(of_int(0), of_int(100))
    }
}

fn pct(busy_delta: u64, total_delta: u64) -> (r: Binary64)
    ensures
        r == share(busy_delta as nat, total_delta as nat),
{
    if total_delta == 0 {
        Binary64::from_u64(0)
    } else {
        Binary64::from_u64(busy_delta).over(&Binary64::from_u64(total_delta)).times(
            &Binary64::from_u64(100),
        ).clamp(&Binary64::from_u64(0), &Binary64::from_u64(100))
    }
}

/// The growth of a counter per second; zero where no time passed.
pub open spec fn per_second(cur: nat, prev: nat, secs: Binary64) -> Binary64 {
    if secs.le(of_int(0)) {
        of_int(0)
    } else {
        of_int(less_or_zero(cur, prev) as int).quotient(secs)
    }
}

fn rate(cur: u64, prev: u64, secs: &Binary64) -> (r: Binary64)
    ensures
        r == per_second(cur as nat, prev as nat, *secs),
{
    if secs.at_most(&Binary64::from_u64(0)) {
        return Binary64::from_u64(0);
    }
    Binary64::from_u64(cur.saturating_sub(prev)).over(secs)
}

/// The share of busy time between two readings of a CPU.
pub open spec fn cpu_share(prev: CpuTimes, cur: CpuTimes) -> Binary64 {
    share(less_or_zero(cur.busy_sum(), prev.busy_sum()), less_or_zero(cur.sum(), prev.sum()))
}

fn cpu_pct(prev: &CpuTimes, cur: &CpuTimes) -> (r: Binary64)
    requires
        prev.fits(),
        cur.fits(),
    ensures
        r == cpu_share(*prev, *cur),
{
    pct(cur.busy().saturating_sub(prev.busy()), cur.total().saturating_sub(prev.total()))
}

/// The number of CPUs that both lists have.
pub open spec fn common(a: Seq<CpuTimes>, b: Seq<CpuTimes>) -> nat {
    if a.len() <= b.len() {
        a.len()
    } else {
        b.len()
    }
}

/// Whether the times of CPU `i` fit a `u64` in both lists.
pub open spec fn core_fits(a: Seq<CpuTimes>, b: Seq<CpuTimes>, i: int) -> bool {
    a[i].fits() && b[i].fits()
}

// ---------------------------------------------------------------- network --

/// Counters summed over interfaces.
pub struct NetTotals {
    pub rx_bytes: nat,
    pub tx_bytes: nat,
    pub rx_errs: nat,
    pub tx_errs: nat,
}

/// The counters summed over every interface except loopback. Local traffic is
/// counted on both ends of it, so taking it in would count it twice.
pub open spec fn net_totals(nets: Seq<NetDevView>) -> NetTotals
    decreases nets.len(),
{
    if nets.len() == 0 {
        NetTotals { rx_bytes: 0, tx_bytes: 0, rx_errs: 0, tx_errs: 0 }
    } else {
        let t = net_totals(nets.drop_last());
        let n = nets.last();
        if n.name == "lo"@ {
            t
        } else {
            NetTotals {
                rx_bytes: t.rx_bytes + n.rx_bytes as nat,
                tx_bytes: t.tx_bytes + n.tx_bytes as nat,
                rx_errs: t.rx_errs + n.rx_errs as nat,
                tx_errs: t.tx_errs + n.tx_errs as nat,
            }
        }
    }
}

impl NetTotals {
    /// Whether each total fits a `u64`.
    pub open spec fn fits(self) -> bool {
        &&& self.rx_bytes <= u64::MAX
        &&& self.tx_bytes <= u64::MAX
        &&& self.rx_errs <= u64::MAX
        &&& self.tx_errs <= u64::MAX
    }

    /// Whether each total is at most the other's.
    spec fn within(self, other: NetTotals) -> bool {
        &&& self.rx_bytes <= other.rx_bytes
        &&& self.tx_bytes <= other.tx_bytes
        &&& self.rx_errs <= other.rx_errs
        &&& self.tx_errs <= other.tx_errs
    }
}

proof fn lemma_totals_grow(nets: Seq<NetDevView>, i: int)
    requires
        0 <= i <= nets.len(),
    ensures
        net_totals(nets.take(i)).within(net_totals(nets)),
    decreases nets.len() - i,
{
    if i == nets.len() {
        assert(nets.take(i) =~= nets);
    } else {
        lemma_totals_grow(nets, i + 1);
        assert(nets.take(i + 1).drop_last() =~= nets.take(i));
    }
}

/// The counters summed over every interface except loopback: bytes received,
/// bytes sent, errors in each direction. `None` where a total is beyond a
/// `u64`.
pub fn sum_net(nets: &Vec<NetDev>) -> (r: Option<(u64, u64, u64, u64)>)
    ensures
        r is Some <==> net_totals(net_views(nets@)).fits(),
        r matches Some(t) ==> {
            let n = net_totals(net_views(nets@));
            t.0 == n.rx_bytes && t.1 == n.tx_bytes && t.2 == n.rx_errs && t.3 == n.tx_errs
        },
{
    let ghost all = net_views(nets@);
    let mut rx: u64 = 0;
    let mut tx: u64 = 0;
    let mut rx_errs: u64 = 0;
    let mut tx_errs: u64 = 0;
    let mut i: usize = 0;
    while i < nets.len()
        invariant
            i <= nets.len(),
            all == net_views(nets@),
            rx == net_totals(all.take(i as int)).rx_bytes,
            tx == net_totals(all.take(i as int)).tx_bytes,
            rx_errs == net_totals(all.take(i as int)).rx_errs,
            tx_errs == net_totals(all.take(i as int)).tx_errs,
        decreases nets.len() - i,
    {
        let n = &nets[i];
        proof {
            assert(all[i as int] == n@);
            assert(all.take(i + 1).drop_last() =~= all.take(i as int));
            lemma_totals_grow(all, i + 1);
        }
        if !same_str(n.name.as_str(), "lo") {
            match (
                rx.checked_add(n.rx_bytes),
                tx.checked_add(n.tx_bytes),
                rx_errs.checked_add(n.rx_errs),
                tx_errs.checked_add(n.tx_errs),
            ) {
                (Some(a), Some(b), Some(c), Some(d)) => {
                    rx = a;
                    tx = b;
                    rx_errs = c;
                    tx_errs = d;
                },
                _ => return None,
            }
        }
        i += 1;
    }
    assert(all.take(i as int) =~= all);
    Some((rx, tx, rx_errs, tx_errs))
}

// -------------------------------------------------------------- processes --

/// CPU time per wall time, in percent of one core.
pub open spec fn core_share(ticks: nat, hz: u64, secs: Binary64) -> Binary64 {
    of_int(ticks as int).quotient(of_int(hz as int).product(secs)).product(of_int(100))
}

/// The I/O rates: block-layer reads and writes, then those of calls. Where
/// there is no earlier reading a rate is not yet defined, and reads as zero;
/// where the counters are unreadable there is none.
pub open spec fn io_rates(prior: Option<PidIo>, cur: Option<PidIo>, secs: Binary64) -> (
    Option<Binary64>,
    Option<Binary64>,
    Option<Binary64>,
    Option<Binary64>,
) {
    match (prior, cur) {
        (Some(p), Some(c)) => (
            Some(per_second(c.read_bytes as nat, p.read_bytes as nat, secs)),
            Some(per_second(c.write_bytes as nat, p.write_bytes as nat, secs)),
            Some(per_second(c.rchar as nat, p.rchar as nat, secs)),
            Some(per_second(c.wchar as nat, p.wchar as nat, secs)),
        ),
        (None, Some(_)) => (Some(of_int(0)), Some(of_int(0)), Some(of_int(0)), Some(of_int(0))),
        _ => (None, None, None, None),
    }
}

/// What one process did, given what it was in the earlier sample. A process is
/// looked up by (pid, starttime), so one with a recycled PID has no earlier
/// reading and is new.
pub open spec fn proc_rate(
    key: ProcKey,
    prior: Option<ProcSampleView>,
    cur: ProcSampleView,
    consts: SysConst,
    secs: Binary64,
) -> ProcRateView {
    let prior_io = match prior {
        Some(p) => p.io,
        None => None,
    };
    let io = io_rates(prior_io, cur.io, secs);
    ProcRateView {
        key,
        pid: cur.stat.pid,
        ppid: cur.stat.ppid,
        comm: cur.stat.comm,
        state: cur.stat.state,
        threads: cur.stat.num_threads,
        cpu_pct: match prior {
            Some(p) => if of_int(0).lt(secs) {
                core_share(less_or_zero(cur.stat.ticks(), p.stat.ticks()), consts.clk_tck, secs)
            } else {
                of_int(0)
            },
            None => of_int(0),
        },
        rss_bytes: cur.stat.rss(consts.page_size as nat) as u64,
        vsize_bytes: cur.stat.vsize,
        read_bps: io.0,
        write_bps: io.1,
        rchar_bps: io.2,
        wchar_bps: io.3,
        sockets: cur.sockets,
        is_new: prior is None,
    }
}

/// Whether the sizes and times that `proc_rate` is made of fit a `u64`.
pub open spec fn proc_fits(
    prior: Option<ProcSampleView>,
    cur: ProcSampleView,
    consts: SysConst,
    secs: Binary64,
) -> bool {
    &&& cur.stat.rss(consts.page_size as nat) <= u64::MAX
    &&& of_int(0).lt(secs) && prior is Some ==> cur.stat.ticks() <= u64::MAX
        && prior->0.stat.ticks() <= u64::MAX
}

fn rate_of(
    key: ProcKey,
    prior: Option<&ProcSample>,
    cur: &ProcSample,
    consts: &SysConst,
    secs: &Binary64,
) -> (r: ProcRate)
    requires
        proc_fits(
            match prior {
                Some(p) => Some(p@),
                None => None,
            },
            cur@,
            *consts,
            *secs,
        ),
    ensures
        r@ == proc_rate(
            key,
            match prior {
                Some(p) => Some(p@),
                None => None,
            },
            cur@,
            *consts,
            *secs,
        ),
{
    let zero = Binary64::from_u64(0);
    let cpu_pct = match prior {
        Some(p) => if zero.less(secs) {
            let dt = cur.stat.cpu_ticks().saturating_sub(p.stat.cpu_ticks());
            let hz = Binary64::from_u64(consts.clk_tck);
            Binary64::from_u64(dt).over(&hz.times(secs)).times(&Binary64::from_u64(100))
        } else {
            zero
        },
        None => zero,
    };
    let prior_io = match prior {
        Some(p) => p.io,
        None => None,
    };
    let (read_bps, write_bps, rchar_bps, wchar_bps) = match (prior_io, cur.io) {
        (Some(pi), Some(ci)) => (
            Some(rate(ci.read_bytes, pi.read_bytes, secs)),
            Some(rate(ci.write_bytes, pi.write_bytes, secs)),
            Some(rate(ci.rchar, pi.rchar, secs)),
            Some(rate(ci.wchar, pi.wchar, secs)),
        ),
        // Present but no prior sample: a rate is not yet defined.
        (None, Some(_)) => (Some(zero), Some(zero), Some(zero), Some(zero)),
        _ => (None, None, None, None),
    };
    ProcRate {
        key,
        pid: cur.stat.pid,
        ppid: cur.stat.ppid,
        comm: copy_str(cur.stat.comm.as_str()),
        state: cur.stat.state,
        threads: cur.stat.num_threads,
        cpu_pct,
        rss_bytes: cur.stat.rss_bytes(consts.page_size),
        vsize_bytes: cur.stat.vsize,
        read_bps,
        write_bps,
        rchar_bps,
        wchar_bps,
        sockets: cur.sockets,
        is_new: prior.is_none(),
    }
}

/// A share of a core is a number, and not a negative one.
proof fn lemma_core_share_is_a_number(ticks: nat, hz: u64, nanos: nat)
    requires
        ticks <= u64::MAX,
        hz > 0,
        of_int(0).lt(secs_real(nanos)),
    ensures
        of_int(0).le(core_share(ticks, hz, secs_real(nanos))),
{
    let secs = secs_real(nanos);
    let h = of_int(hz as int);
    law_whole_numbers_are_finite(hz as nat);
    law_whole_numbers_are_finite(ticks);
    law_whole_numbers_are_finite(100);
    law_whole_numbers_are_finite(0);
    lemma_units_order(0, secs.magnitude());
    lemma_units_order(0, of_int(0).magnitude());
    lemma_whole_number_is_at_least_one(hz as nat);
    lemma_product_stays_positive(h, secs);
    let d = h.product(secs);
    lemma_quotient_is_a_number(of_int(ticks as int), d);
    let q = of_int(ticks as int).quotient(d);
    lemma_product_is_a_number(q, of_int(100));
    lemma_units_order(0, core_share(ticks, hz, secs).magnitude());
}

// --------------------------------------------------------------- ordering --

/// Whether `a` may stand before `b`: more CPU, or as much and no smaller a
/// resident size.
pub open spec fn ranks(a: ProcRateView, b: ProcRateView) -> bool {
    b.cpu_pct.lt(a.cpu_pct) || (a.cpu_pct.le(b.cpu_pct) && b.cpu_pct.le(a.cpu_pct) && a.rss_bytes
        >= b.rss_bytes)
}

/// Whether every process may stand before every later one.
pub open spec fn ranked(v: Seq<ProcRate>) -> bool {
    forall|i: int, j: int| 0 <= i < j < v.len() ==> ranks((#[trigger] v[i])@, (#[trigger] v[j])@)
}

/// Puts `p` behind every process that may stand before it.
fn insert_ranked(v: &mut Vec<ProcRate>, p: ProcRate) -> (at: usize)
    requires
        ranked(old(v)@),
        forall|i: int| 0 <= i < old(v)@.len() ==> !(#[trigger] old(v)@[i]).cpu_pct.is_nan(),
        !p.cpu_pct.is_nan(),
    ensures
        at <= old(v)@.len(),
        final(v)@ == old(v)@.insert(at as int, p),
        ranked(final(v)@),
{
    let ghost before = v@;
    let mut low: usize = 0;
    let mut high: usize = v.len();
    while low < high
        invariant
            low <= high <= v@.len(),
            v@ == before,
            ranked(before),
            !p.cpu_pct.is_nan(),
            forall|i: int| 0 <= i < before.len() ==> !(#[trigger] before[i]).cpu_pct.is_nan(),
            forall|i: int| 0 <= i < low ==> ranks((#[trigger] before[i])@, p@),
            forall|i: int| high <= i < before.len() ==> !ranks((#[trigger] before[i])@, p@),
        decreases high - low,
    {
        let mid = low + (high - low) / 2;
        let a = &v[mid];
        let first = p.cpu_pct.less(&a.cpu_pct) || (!a.cpu_pct.less(&p.cpu_pct) && a.rss_bytes
            >= p.rss_bytes);
        assert(first == ranks(before[mid as int]@, p@));
        if first {
            low = mid + 1;
        } else {
            high = mid;
        }
    }
    v.insert(low, p);
    proof {
        let after = v@;
        assert forall|i: int, j: int| 0 <= i < j < after.len() implies ranks(
            (#[trigger] after[i])@,
            (#[trigger] after[j])@,
        ) by {
            if i < low {
                assert(after[i] == before[i]);
            } else if i > low {
                assert(after[i] == before[i - 1]);
            }
            if j < low {
                assert(after[j] == before[j]);
            } else if j > low {
                assert(after[j] == before[j - 1]);
            }
        }
    }
    low
}

// ------------------------------------------------------------------- diff --

/// The whole-system rates between two samples.
pub open spec fn system_rate(prev: SampleView, cur: SampleView) -> SystemRateView {
    let interval = cur.at.since(prev.at);
    let secs = secs_real(interval.nanos as nat);
    let c = net_totals(cur.nets);
    let p = net_totals(prev.nets);
    SystemRateView {
        cpu_pct: cpu_share(prev.cpu.total, cur.cpu.total),
        per_cpu_pct: Seq::new(
            common(cur.cpu.per_cpu, prev.cpu.per_cpu),
            |i: int| cpu_share(prev.cpu.per_cpu[i], cur.cpu.per_cpu[i]),
        ),
        mem: cur.mem,
        net_rx_bps: per_second(c.rx_bytes, p.rx_bytes, secs),
        net_tx_bps: per_second(c.tx_bytes, p.tx_bytes, secs),
        net_rx_errs: c.rx_errs as u64,
        net_tx_errs: c.tx_errs as u64,
        ctxt_per_sec: per_second(cur.cpu.ctxt as nat, prev.cpu.ctxt as nat, secs),
        procs_running: cur.cpu.procs_running,
        procs_blocked: cur.cpu.procs_blocked,
        proc_count: cur.procs.len() as usize,
        vanished: cur.vanished,
        scan_time: cur.scan_time,
        interval,
    }
}

/// The rates of the process `key` between two samples.
pub open spec fn rate_between(prev: SampleView, cur: SampleView, consts: SysConst, key: ProcKey) -> ProcRateView {
    proc_rate(
        key,
        lookup(prev.procs, key),
        cur.procs[key],
        consts,
        secs_real(cur.at.since(prev.at).nanos as nat),
    )
}

/// Whether the tick rate is one, and every sum, size and time that the rates
/// are made of fits a `u64`.
pub open spec fn can_diff(prev: SampleView, cur: SampleView, consts: SysConst) -> bool {
    let secs = secs_real(cur.at.since(prev.at).nanos as nat);
    &&& consts.clk_tck > 0
    &&& prev.cpu.total.fits()
    &&& cur.cpu.total.fits()
    &&& forall|i: int|
        0 <= i < common(cur.cpu.per_cpu, prev.cpu.per_cpu) ==> #[trigger] core_fits(
            prev.cpu.per_cpu,
            cur.cpu.per_cpu,
            i,
        )
    &&& net_totals(prev.nets).fits()
    &&& net_totals(cur.nets).fits()
    &&& forall|k: ProcKey| #[trigger]
        cur.procs.contains_key(k) ==> proc_fits(lookup(prev.procs, k), cur.procs[k], consts, secs)
}

/// Whether `procs` holds the rates of exactly the processes of `cur`, each
/// once, in order.
pub open spec fn lists_rates(
    procs: Seq<ProcRate>,
    prev: SampleView,
    cur: SampleView,
    consts: SysConst,
) -> bool {
    &&& forall|i: int|
        0 <= i < procs.len() ==> cur.procs.contains_key((#[trigger] procs[i]).key) && procs[i]@
            == rate_between(prev, cur, consts, procs[i].key)
    &&& forall|i: int, j: int|
        0 <= i < j < procs.len() ==> (#[trigger] procs[i]).key != (#[trigger] procs[j]).key
    &&& forall|k: ProcKey| #[trigger]
        cur.procs.contains_key(k) ==> exists|i: int|
            0 <= i < procs.len() && (#[trigger] procs[i]).key == k
    &&& ranked(procs)
}

/// Whether the rates between two samples can be computed.
pub fn diffable(prev: &Sample, cur: &Sample, consts: &SysConst) -> (r: bool)
    requires
        prev.procs.wf(),
        cur.procs.wf(),
    ensures
        r == can_diff(prev@, cur@, *consts),
{
    if consts.clk_tck == 0 || !prev.cpu.total.in_range() || !cur.cpu.total.in_range() {
        return false;
    }
    let mut i: usize = 0;
    while i < cur.cpu.per_cpu.len() && i < prev.cpu.per_cpu.len()
        invariant
            i <= common(cur.cpu.per_cpu@, prev.cpu.per_cpu@),
            forall|k: int| 0 <= k < i ==> #[trigger] core_fits(prev.cpu.per_cpu@, cur.cpu.per_cpu@, k),
        decreases cur.cpu.per_cpu.len() - i,
    {
        let c = &cur.cpu.per_cpu[i];
        let p = &prev.cpu.per_cpu[i];
        let fits = c.in_range() && p.in_range();
        assert(fits == core_fits(prev.cpu.per_cpu@, cur.cpu.per_cpu@, i as int));
        if !fits {
            assert(!core_fits(prev@.cpu.per_cpu, cur@.cpu.per_cpu, i as int));
            return false;
        }
        i += 1;
    }
    if sum_net(&prev.nets).is_none() || sum_net(&cur.nets).is_none() {
        return false;
    }
    let secs = cur.at.saturating_duration_since(prev.at).as_secs_real();
    let moved = Binary64::from_u64(0).less(&secs);
    let n = cur.procs.len();
    let mut i: usize = 0;
    while i < n
        invariant
            cur.procs.wf(),
            prev.procs.wf(),
            i <= n == cur.procs.keys().len(),
            moved == of_int(0).lt(secs),
            forall|k: int|
                0 <= k < i ==> proc_fits(
                    lookup(prev.procs@, #[trigger] cur.procs.keys()[k]),
                    cur.procs@[cur.procs.keys()[k]],
                    *consts,
                    secs,
                ),
            secs == secs_real(cur.at.since(prev.at).nanos as nat),
        decreases n - i,
    {
        let (key, c) = cur.procs.at(i);
        let mut fits = c.stat.rss_in_range(consts.page_size);
        let prior = prev.procs.get(&key);
        if moved {
            if let Some(p) = prior {
                fits = fits && c.stat.ticks_in_range() && p.stat.ticks_in_range();
            }
        }
        assert(fits == proc_fits(lookup(prev.procs@, key), cur.procs@[key], *consts, secs));
        if !fits {
            assert(cur@.procs.contains_key(key));
            return false;
        }
        i += 1;
    }
    proof {
        cur.procs.lemma_keys();
        assert forall|k: ProcKey| #[trigger] cur@.procs.contains_key(k) implies proc_fits(
            lookup(prev@.procs, k),
            cur@.procs[k],
            *consts,
            secs,
        ) by {
            let m = cur.procs.keys().index_of(k);
            assert(cur.procs.keys()[m] == k);
        }
    }
    true
}

/// Computes the rates between two samples. `prev` must be the earlier one.
pub fn diff(prev: &Sample, cur: &Sample, consts: &SysConst) -> (r: Snapshot)
    requires
        prev.procs.wf(),
        cur.procs.wf(),
        can_diff(prev@, cur@, *consts),
    ensures
        r.system@ == system_rate(prev@, cur@),
        lists_rates(r.procs@, prev@, cur@, *consts),
{
    let interval = cur.at.saturating_duration_since(prev.at);
    let secs = interval.as_secs_real();

    // System CPU: a ratio within a single consistent read.
    let total_pct = cpu_pct(&prev.cpu.total, &cur.cpu.total);
    let mut per_cpu_pct: Vec<Binary64> = Vec::new();
    let mut i: usize = 0;
    while i < cur.cpu.per_cpu.len() && i < prev.cpu.per_cpu.len()
        invariant
            i <= common(cur.cpu.per_cpu@, prev.cpu.per_cpu@),
            can_diff(prev@, cur@, *consts),
            per_cpu_pct@.len() == i,
            forall|k: int|
                0 <= k < i ==> #[trigger] per_cpu_pct@[k] == cpu_share(
                    prev.cpu.per_cpu@[k],
                    cur.cpu.per_cpu@[k],
                ),
        decreases cur.cpu.per_cpu.len() - i,
    {
        assert(core_fits(prev@.cpu.per_cpu, cur@.cpu.per_cpu, i as int));
        per_cpu_pct.push(cpu_pct(&prev.cpu.per_cpu[i], &cur.cpu.per_cpu[i]));
        i += 1;
    }

    let (crx, ctx, crxe, ctxe) = sum_net(&cur.nets).unwrap();
    let (prx, ptx, _, _) = sum_net(&prev.nets).unwrap();
    let n = cur.procs.len();
    let system = SystemRate {
        cpu_pct: total_pct,
        per_cpu_pct,
        mem: cur.mem,
        net_rx_bps: rate(crx, prx, &secs),
        net_tx_bps: rate(ctx, ptx, &secs),
        net_rx_errs: crxe,
        net_tx_errs: ctxe,
        ctxt_per_sec: rate(cur.cpu.ctxt, prev.cpu.ctxt, &secs),
        procs_running: cur.cpu.procs_running,
        procs_blocked: cur.cpu.procs_blocked,
        proc_count: n,
        vanished: cur.vanished,
        scan_time: cur.scan_time,
        interval,
    };
    assert(system@.per_cpu_pct =~= system_rate(prev@, cur@).per_cpu_pct);

    let procs = ranked_rates(prev, cur, consts, &secs);
    Snapshot { system, procs }
}

/// Whether `procs` has one process for each key of `keys`, in any order.
spec fn covers(procs: Seq<ProcRate>, keys: Seq<ProcKey>) -> bool {
    &&& forall|i: int| 0 <= i < procs.len() ==> keys.contains((#[trigger] procs[i]).key)
    &&& forall|i: int, j: int|
        0 <= i < j < procs.len() ==> (#[trigger] procs[i]).key != (#[trigger] procs[j]).key
    &&& forall|m: int|
        0 <= m < keys.len() ==> exists|i: int|
            0 <= i < procs.len() && (#[trigger] procs[i]).key == #[trigger] keys[m]
}

proof fn lemma_covers_insert(procs: Seq<ProcRate>, keys: Seq<ProcKey>, at: int, p: ProcRate)
    requires
        covers(procs, keys),
        !keys.contains(p.key),
        0 <= at <= procs.len(),
    ensures
        covers(procs.insert(at, p), keys.push(p.key)),
{
    let after = procs.insert(at, p);
    let ks = keys.push(p.key);
    assert forall|i: int| 0 <= i < after.len() implies ks.contains((#[trigger] after[i]).key) by {
        if i == at {
            assert(ks[keys.len() as int] == p.key);
        } else {
            let o = if i < at {
                i
            } else {
                i - 1
            };
            assert(after[i] == procs[o]);
            let m = keys.index_of(procs[o].key);
            assert(ks[m] == procs[o].key);
        }
    }
    assert forall|i: int, j: int| 0 <= i < j < after.len() implies (#[trigger] after[i]).key != (
    #[trigger] after[j]).key by {
        let x = if i < at {
            i
        } else {
            i - 1
        };
        let y = if j < at {
            j
        } else {
            j - 1
        };
        if i == at {
            assert(after[j] == procs[y]);
            assert(keys.contains(procs[y].key));
        } else if j == at {
            assert(after[i] == procs[x]);
            assert(keys.contains(procs[x].key));
        } else {
            assert(after[i] == procs[x] && after[j] == procs[y]);
        }
    }
    assert forall|m: int| 0 <= m < ks.len() implies exists|i: int|
        0 <= i < after.len() && (#[trigger] after[i]).key == #[trigger] ks[m] by {
        if m == keys.len() {
            assert(after[at].key == ks[m]);
        } else {
            assert(ks[m] == keys[m]);
            let i = choose|i: int| 0 <= i < procs.len() && (#[trigger] procs[i]).key == keys[m];
            let n = if i < at {
                i
            } else {
                i + 1
            };
            assert(after[n] == procs[i]);
        }
    }
}

/// Whether `p` is the rate of a process of `cur`.
spec fn is_rate(p: ProcRate, prev: SampleView, cur: SampleView, consts: SysConst) -> bool {
    &&& cur.procs.contains_key(p.key)
    &&& p@ == rate_between(prev, cur, consts, p.key)
    &&& !p.cpu_pct.is_nan()
}

/// The rates of every process, in order.
fn ranked_rates(prev: &Sample, cur: &Sample, consts: &SysConst, secs: &Binary64) -> (procs: Vec<ProcRate>)
    requires
        prev.procs.wf(),
        cur.procs.wf(),
        can_diff(prev@, cur@, *consts),
        *secs == secs_real(cur.at.since(prev.at).nanos as nat),
    ensures
        lists_rates(procs@, prev@, cur@, *consts),
{
    let n = cur.procs.len();
    let mut procs: Vec<ProcRate> = Vec::new();
    let ghost keys = cur.procs.keys();
    proof {
        cur.procs.lemma_keys();
    }
    let mut i: usize = 0;
    while i < n
        invariant
            prev.procs.wf(),
            cur.procs.wf(),
            can_diff(prev@, cur@, *consts),
            *secs == secs_real(cur.at.since(prev.at).nanos as nat),
            keys == cur.procs.keys(),
            keys.no_duplicates(),
            i <= n == keys.len(),
            ranked(procs@),
            covers(procs@, keys.take(i as int)),
            forall|k: int| 0 <= k < procs@.len() ==> is_rate(#[trigger] procs@[k], prev@, cur@, *consts),
        decreases n - i,
    {
        let (key, c) = cur.procs.at(i);
        let prior = prev.procs.get(&key);
        let p = rate_of(key, prior, c, consts, secs);
        let ghost before = procs@;
        let ghost pv = p;
        proof {
            lemma_rate_is_a_number(prev@, cur@, *consts, key);
            assert(pv@ == rate_between(prev@, cur@, *consts, key));
            assert(is_rate(pv, prev@, cur@, *consts));
            assert(!keys.take(i as int).contains(key)) by {
                if keys.take(i as int).contains(key) {
                    let m = keys.take(i as int).index_of(key);
                    assert(keys[m] == keys[i as int]);
                }
            }
            assert forall|k: int| 0 <= k < before.len() implies !(#[trigger] before[k]).cpu_pct.is_nan() by {
                assert(is_rate(before[k], prev@, cur@, *consts));
            }
        }
        let at = insert_ranked(&mut procs, p);
        proof {
            lemma_covers_insert(before, keys.take(i as int), at as int, pv);
            assert(keys.take(i as int).push(key) =~= keys.take(i + 1));
            assert forall|k: int| 0 <= k < procs@.len() implies is_rate(
                #[trigger] procs@[k],
                prev@,
                cur@,
                *consts,
            ) by {
                if k < at {
                    assert(procs@[k] == before[k]);
                } else if k > at {
                    assert(procs@[k] == before[k - 1]);
                }
            }
        }
        i += 1;
    }
    proof {
        assert(keys.take(i as int) =~= keys);
        assert forall|i: int| 0 <= i < procs@.len() implies cur@.procs.contains_key(
            (#[trigger] procs@[i]).key,
        ) && procs@[i]@ == rate_between(prev@, cur@, *consts, procs@[i].key) by {
            assert(is_rate(procs@[i], prev@, cur@, *consts));
        }
        assert forall|k: ProcKey| #[trigger] cur@.procs.contains_key(k) implies exists|i: int|
            0 <= i < procs@.len() && (#[trigger] procs@[i]).key == k by {
            let m = keys.index_of(k);
            assert(keys[m] == k);
        }
    }
    procs
}

proof fn lemma_rate_is_a_number(prev: SampleView, cur: SampleView, consts: SysConst, key: ProcKey)
    requires
        can_diff(prev, cur, consts),
        cur.procs.contains_key(key),
    ensures
        of_int(0).le(rate_between(prev, cur, consts, key).cpu_pct),
{
    let nanos = cur.at.since(prev.at).nanos as nat;
    law_whole_numbers_are_finite(0);
    if prev.procs.contains_key(key) && of_int(0).lt(secs_real(nanos)) {
        let ticks = less_or_zero(cur.procs[key].stat.ticks(), prev.procs[key].stat.ticks());
        lemma_core_share_is_a_number(ticks, consts.clk_tck, nanos);
    }
}

// ------------------------------------------------------------------ laws --

/// A process with no earlier reading under its own (pid, starttime) is new and
/// has no CPU rate, whatever an earlier process with its PID had used.
pub proof fn law_a_recycled_pid_is_a_new_process(
    prev: SampleView,
    cur: SampleView,
    consts: SysConst,
    old_key: ProcKey,
    new_key: ProcKey,
)
    requires
        old_key.pid == new_key.pid,
        old_key.starttime != new_key.starttime,
        prev.procs.contains_key(old_key),
        !prev.procs.contains_key(new_key),
        cur.procs.contains_key(new_key),
    ensures
        rate_between(prev, cur, consts, new_key).is_new,
        rate_between(prev, cur, consts, new_key).cpu_pct == of_int(0),
{
}

/// The number of seconds is a number, and not a negative one.
proof fn lemma_secs(nanos: nat)
    ensures
        !secs_real(nanos).is_nan(),
        !secs_real(nanos).negative(),
{
    lemma_sum_is_a_number(
        of_int((nanos / 1_000_000_000) as int),
        of_int((nanos % 1_000_000_000) as int).quotient(of_int(1_000_000_000)),
    );
}

/// A counter that stands still or moves backwards has a rate of zero.
pub proof fn law_counters_going_backwards_read_as_zero(cur: nat, prev: nat, nanos: nat)
    requires
        cur <= prev,
    ensures
        per_second(cur, prev, secs_real(nanos)) == of_int(0),
{
    let secs = secs_real(nanos);
    lemma_secs(nanos);
    law_whole_numbers_are_finite(0);
    lemma_units_order(0, secs.magnitude());
    lemma_units_order(0, of_int(0).magnitude());
    if !secs.le(of_int(0)) {
        lemma_zero_over(secs);
    }
}

/// A share of CPU time is between nought and a hundred percent, whatever the
/// counters do.
pub proof fn law_cpu_shares_are_percentages(prev: CpuTimes, cur: CpuTimes)
    requires
        prev.fits(),
        cur.fits(),
    ensures
        of_int(0).le(cpu_share(prev, cur)),
        cpu_share(prev, cur).le(of_int(100)),
{
    let b = less_or_zero(cur.busy_sum(), prev.busy_sum());
    let t = less_or_zero(cur.sum(), prev.sum());
    law_whole_numbers_are_finite(0);
    law_whole_numbers_are_finite(100);
    lemma_units_order(0, of_int(0).magnitude());
    lemma_units_order(0, of_int(100).magnitude());
    if t > 0 {
        law_whole_numbers_are_finite(b);
        law_whole_numbers_are_finite(t);
        lemma_quotient_is_a_number(of_int(b as int), of_int(t as int));
        lemma_product_is_a_number(of_int(b as int).quotient(of_int(t as int)), of_int(100));
        lemma_units_order(0, percent(b, t).magnitude());
    }
}

/// Traffic on the loopback interface changes no total, wherever it is listed.
pub proof fn law_loopback_is_left_out(nets: Seq<NetDevView>, i: int, lo: NetDevView)
    requires
        0 <= i <= nets.len(),
        lo.name == "lo"@,
    ensures
        net_totals(nets.insert(i, lo)) == net_totals(nets),
    decreases nets.len(),
{
    let more = nets.insert(i, lo);
    if i == nets.len() {
        assert(more.drop_last() =~= nets);
    } else {
        assert(more.last() == nets.last());
        assert(more.drop_last() =~= nets.drop_last().insert(i, lo));
        law_loopback_is_left_out(nets.drop_last(), i, lo);
    }
}

/// A process that used as many ticks as one core has in a whole number of
/// seconds used a hundred percent.
pub proof fn law_one_core_is_a_hundred_percent(hz: u64, seconds: nat)
    requires
        hz > 0,
        seconds > 0,
        hz * seconds < 0x20_0000_0000_0000,
    ensures
        core_share((hz * seconds) as nat, hz, secs_real(seconds * 1_000_000_000)) == of_int(100),
{
    let n = (hz * seconds) as nat;
    assert(hz <= n && seconds <= n) by (nonlinear_arith)
        requires
            n == hz * seconds,
            hz > 0,
            seconds > 0,
    ;
    law_small_whole_numbers_are_exact(hz as nat);
    law_small_whole_numbers_are_exact(seconds);
    law_small_whole_numbers_are_exact(n);
    law_whole_numbers_are_finite(1_000_000_000);
    lemma_zero_over(of_int(1_000_000_000));
    let nanos = (seconds * 1_000_000_000) as nat;
    assert(nanos / 1_000_000_000 == seconds && nanos % 1_000_000_000 == 0);
    let s = of_int(seconds as int);
    let secs = secs_real(nanos);
    lemma_units_order(0, of_int(0).magnitude());
    law_representable_is_exact(s.magnitude(), 1);
    assert(s.units() * 1 == s.units());
    assert(secs == s);
    let x = of_int(n as int);
    law_small_products_are_exact(hz as nat, seconds);
    law_whole_numbers_are_finite(n);
    lemma_quotient_by_itself(x);
    law_whole_numbers_are_finite(100);
    lemma_one_times(of_int(100));
}

} // verus!
