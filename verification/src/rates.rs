//! What the rates between two samples promise.
//!
//! The laws speak of samples that are a number of quarters of a second apart and
//! of rates that are whole numbers, and of how rates relate otherwise.

use vstd::prelude::*;

use crate::binary64::{
    law_equal_ratios_have_equal_quotients, law_proper_fractions, law_quarters_are_exact, law_quotients_keep_order,
    law_representable_is_exact, law_small_products_are_exact, law_small_whole_numbers_are_exact, law_whole_numbers_are_finite,
    law_whole_numbers_keep_their_order, law_whole_quotients_are_exact, lemma_exact_product, lemma_nearest_ratio, lemma_quarter, lemma_units_order,
    lemma_zero_over, of_int, one_units,
};
use crate::delta::{
    can_diff, core_fits, core_share, cpu_share, law_counters_going_backwards_read_as_zero, less_or_zero, lists_rates, net_totals, per_second, ranks, rate_between,
    system_rate, NetTotals, ProcRate,
};
use crate::procfs::{CpuTimes, NetDevView, PidIo, ProcKey};
use crate::render::millis;
use crate::sample::{ProcSampleView, SampleView};
use crate::time::{secs_real, Duration};
use crate::units::SysConst;

verus! {

/// Whether `cur` was taken `q` quarters of a second after `prev`.
pub open spec fn apart(prev: SampleView, cur: SampleView, q: nat) -> bool {
    0 < q < 0x20_0000_0000_0000 && cur.at.nanos == prev.at.nanos + q * 250_000_000
}

/// A span of time is read as its seconds: exactly, where it is a whole number of
/// quarters of a second.
pub proof fn law_quarters_of_a_second_are_exact(q: nat)
    requires
        q < 0x20_0000_0000_0000,
    ensures
        secs_real(q * 250_000_000) == of_int(q as int).quotient(of_int(4)),
{
    lemma_quarters_left(q / 4, q % 4);
    lemma_sum_of_quarters(q / 4, q % 4);
}

proof fn lemma_quarters_left(a: nat, r: nat)
    requires
        r < 4,
    ensures
        secs_real((4 * a + r) * 250_000_000) == of_int(a as int).sum(of_int(r as int).quotient(of_int(4))),
{
    let nanos = ((4 * a + r) * 250_000_000) as nat;
    assert(nanos == 1_000_000_000 * a + r * 250_000_000);
    assert(nanos / 1_000_000_000 == a && nanos % 1_000_000_000 == r * 250_000_000);
    assert((r * 250_000_000) * 4 == r * 1_000_000_000);
    law_equal_ratios_have_equal_quotients((r * 250_000_000) as nat, 1_000_000_000, r, 4);
}

#[verifier::rlimit(40)]
proof fn lemma_sum_of_quarters(a: nat, r: nat)
    requires
        r < 4,
        4 * a + r < 0x20_0000_0000_0000,
    ensures
        of_int(a as int).sum(of_int(r as int).quotient(of_int(4))) == of_int((4 * a + r) as int).quotient(of_int(4)),
{
    let w = one_units();
    let q = 4 * a + r;
    let f = of_int(r as int).quotient(of_int(4));
    let z = of_int(q as int).quotient(of_int(4));
    law_small_whole_numbers_are_exact(a);
    law_whole_numbers_are_finite(4);
    if r == 0 {
        lemma_zero_over(of_int(4));
        lemma_units_order(0, 0);
        assert(0 * w == 0);
    } else {
        lemma_quarter(r);
    }
    assert(f.units() * 4 == r * w);
    assert(4 * (a * w) + r * w == q * w) by (nonlinear_arith)
        requires
            q == 4 * a + r,
    ;
    if q == 0 {
        lemma_zero_over(of_int(4));
        lemma_units_order(0, 0);
        assert(0 * w == 0);
    } else {
        lemma_quarter(q);
    }
    assert(z.units() * 4 == q * w);
    assert(of_int(a as int).units() + f.units() == z.units());
    law_representable_is_exact(z.magnitude(), 1);
    assert(z.units() * 1 == z.units());
}

/// Less than a second is that many billionths.
pub proof fn law_fractions_of_a_second(nanos: nat)
    requires
        nanos < 1_000_000_000,
    ensures
        secs_real(nanos) == of_int(nanos as int).quotient(of_int(1_000_000_000)),
{
    law_whole_numbers_are_finite(1_000_000_000);
    law_whole_numbers_are_finite(nanos);
    lemma_zero_over(of_int(1_000_000_000));
    lemma_units_order(0, of_int(0).magnitude());
    let f = of_int(nanos as int).quotient(of_int(1_000_000_000));
    law_proper_fractions(nanos, 1_000_000_000);
    law_representable_is_exact(f.magnitude(), 1);
    assert(f.units() * 1 == f.units());
}

proof fn lemma_time_passed(q: nat)
    requires
        0 < q < 0x20_0000_0000_0000,
    ensures
        secs_real(q * 250_000_000) == of_int(q as int).quotient(of_int(4)),
        of_int(0).lt(of_int(q as int).quotient(of_int(4))),
        !of_int(q as int).quotient(of_int(4)).le(of_int(0)),
{
    let w = one_units();
    vstd::arithmetic::power2::lemma_pow2_pos(1074);
    law_quarters_of_a_second_are_exact(q);
    lemma_quarter(q);
    law_whole_numbers_are_finite(4);
    lemma_zero_over(of_int(4));
    lemma_units_order(0, of_int(0).magnitude());
    assert(of_int(q as int).quotient(of_int(4)).units() > 0) by (nonlinear_arith)
        requires
            of_int(q as int).quotient(of_int(4)).units() * 4 == q * w,
            q > 0,
            w > 0,
    ;
}

/// To divide by quarters is to take four times as much.
proof fn lemma_over_quarters(n: nat, q: nat)
    requires
        4 * n < 0x20_0000_0000_0000,
        0 < q < 0x20_0000_0000_0000,
    ensures
        of_int(n as int).quotient(of_int(q as int).quotient(of_int(4))) == of_int((4 * n) as int).quotient(
            of_int(q as int),
        ),
{
    let w = one_units();
    vstd::arithmetic::power2::lemma_pow2_pos(1074);
    law_small_whole_numbers_are_exact(n);
    law_small_whole_numbers_are_exact(4 * n);
    law_small_whole_numbers_are_exact(q);
    law_whole_numbers_are_finite(q);
    lemma_quarter(q);
    lemma_time_passed(q);
    let z = of_int(q as int).quotient(of_int(4));
    let d = z.units();
    assert(d > 0 && q * w > 0) by (nonlinear_arith)
        requires
            d * 4 == q * w,
            q > 0,
            w > 0,
    ;
    lemma_units_order(0, z.magnitude());
    assert(((n * w) * w) * (q * w) == (((4 * n) * w) * w) * d) by (nonlinear_arith)
        requires
            d * 4 == q * w,
    ;
    lemma_nearest_ratio((n * w) * w, d, ((4 * n) * w) * w, q * w);
}

/// Whether a counter grew by `n` a second over `q` quarters of a second.
pub open spec fn grew(prev: nat, cur: nat, n: nat, q: nat) -> bool {
    prev <= cur && 4 * (cur - prev) == n * q && n < 0x20_0000_0000_0000 && n * q < 0x20_0000_0000_0000
}

proof fn lemma_per_second(cur: nat, prev: nat, n: nat, q: nat)
    requires
        0 < q < 0x20_0000_0000_0000,
        grew(prev, cur, n, q),
    ensures
        per_second(cur, prev, secs_real(q * 250_000_000)) == of_int(n as int),
{
    lemma_time_passed(q);
    lemma_over_quarters((cur - prev) as nat, q);
    law_whole_quotients_are_exact(n, q);
}

// ---------------------------------------------------------------- network --

/// Each total grows by the interface's own counter of that name, and by no other
/// counter; loopback adds to none. Without interfaces the totals are zero.
pub proof fn law_interfaces_add_their_own_counters(nets: Seq<NetDevView>, n: NetDevView)
    ensures
        n.name != "lo"@ ==> net_totals(nets.push(n)) == (NetTotals {
            rx_bytes: net_totals(nets).rx_bytes + n.rx_bytes as nat,
            tx_bytes: net_totals(nets).tx_bytes + n.tx_bytes as nat,
            rx_errs: net_totals(nets).rx_errs + n.rx_errs as nat,
            tx_errs: net_totals(nets).tx_errs + n.tx_errs as nat,
        }),
        n.name == "lo"@ ==> net_totals(nets.push(n)) == net_totals(nets),
        net_totals(seq![]) == (NetTotals { rx_bytes: 0, tx_bytes: 0, rx_errs: 0, tx_errs: 0 }),
{
    assert(nets.push(n).drop_last() =~= nets);
}

/// The order of the interfaces changes no total.
pub proof fn law_totals_have_no_order(a: Seq<NetDevView>, b: Seq<NetDevView>)
    ensures
        net_totals(a + b).rx_bytes == net_totals(a).rx_bytes + net_totals(b).rx_bytes,
        net_totals(a + b).tx_bytes == net_totals(a).tx_bytes + net_totals(b).tx_bytes,
        net_totals(a + b).rx_errs == net_totals(a).rx_errs + net_totals(b).rx_errs,
        net_totals(a + b).tx_errs == net_totals(a).tx_errs + net_totals(b).tx_errs,
    decreases b.len(),
{
    if b.len() == 0 {
        assert(a + b =~= a);
    } else {
        assert((a + b).drop_last() =~= a + b.drop_last());
        assert((a + b).last() == b.last());
        law_totals_have_no_order(a, b.drop_last());
    }
}

// ----------------------------------------------------------------- system --

/// What was received grew by `n` bytes a second: then `n` is the rate of what is
/// received. The same holds of what is sent and of context switches, each by its
/// own counter.
pub proof fn law_system_rates_are_growth_per_second(prev: SampleView, cur: SampleView, q: nat, n: nat)
    requires
        apart(prev, cur, q),
    ensures
        grew(net_totals(prev.nets).rx_bytes, net_totals(cur.nets).rx_bytes, n, q) ==> system_rate(
            prev,
            cur,
        ).net_rx_bps == of_int(n as int),
        grew(net_totals(prev.nets).tx_bytes, net_totals(cur.nets).tx_bytes, n, q) ==> system_rate(
            prev,
            cur,
        ).net_tx_bps == of_int(n as int),
        grew(prev.cpu.ctxt as nat, cur.cpu.ctxt as nat, n, q) ==> system_rate(prev, cur).ctxt_per_sec == of_int(
            n as int,
        ),
{
    if grew(net_totals(prev.nets).rx_bytes, net_totals(cur.nets).rx_bytes, n, q) {
        lemma_per_second(net_totals(cur.nets).rx_bytes, net_totals(prev.nets).rx_bytes, n, q);
    }
    if grew(net_totals(prev.nets).tx_bytes, net_totals(cur.nets).tx_bytes, n, q) {
        lemma_per_second(net_totals(cur.nets).tx_bytes, net_totals(prev.nets).tx_bytes, n, q);
    }
    if grew(prev.cpu.ctxt as nat, cur.cpu.ctxt as nat, n, q) {
        lemma_per_second(cur.cpu.ctxt as nat, prev.cpu.ctxt as nat, n, q);
    }
}

/// One interface that is not loopback, and nothing else, makes the rates of the
/// network: bytes, not packets, each direction by itself.
pub proof fn law_one_interface_makes_the_network_rates(
    prev: SampleView,
    cur: SampleView,
    a: NetDevView,
    b: NetDevView,
    q: nat,
    rx: nat,
    tx: nat,
)
    requires
        apart(prev, cur, q),
        prev.nets == seq![a],
        cur.nets == seq![b],
        a.name != "lo"@,
        b.name != "lo"@,
        grew(a.rx_bytes as nat, b.rx_bytes as nat, rx, q),
        grew(a.tx_bytes as nat, b.tx_bytes as nat, tx, q),
    ensures
        system_rate(prev, cur).net_rx_bps == of_int(rx as int),
        system_rate(prev, cur).net_tx_bps == of_int(tx as int),
        system_rate(prev, cur).net_rx_errs == b.rx_errs,
        system_rate(prev, cur).net_tx_errs == b.tx_errs,
{
    let none = Seq::<NetDevView>::empty();
    law_interfaces_add_their_own_counters(none, a);
    law_interfaces_add_their_own_counters(none, b);
    assert(none.push(a) =~= seq![a]);
    assert(none.push(b) =~= seq![b]);
    law_system_rates_are_growth_per_second(prev, cur, q, rx);
    law_system_rates_are_growth_per_second(prev, cur, q, tx);
}

/// What is no rate is what the later sample says: memory, processes that run or
/// are blocked, how many there are, how many vanished and how long the scan
/// took. The interval is the time between the samples, and there are as many
/// shares as both samples have cores.
pub proof fn law_the_later_sample_says_the_rest(prev: SampleView, cur: SampleView)
    ensures
        system_rate(prev, cur).mem == cur.mem,
        system_rate(prev, cur).procs_running == cur.cpu.procs_running,
        system_rate(prev, cur).procs_blocked == cur.cpu.procs_blocked,
        cur.procs.len() <= usize::MAX ==> system_rate(prev, cur).proc_count == cur.procs.len(),
        system_rate(prev, cur).vanished == cur.vanished,
        system_rate(prev, cur).scan_time == cur.scan_time,
        cur.at.nanos >= prev.at.nanos ==> system_rate(prev, cur).interval.nanos == cur.at.nanos
            - prev.at.nanos,
        cur.at.nanos < prev.at.nanos ==> system_rate(prev, cur).interval.nanos == 0,
        net_totals(cur.nets).rx_errs <= u64::MAX ==> system_rate(prev, cur).net_rx_errs == net_totals(
            cur.nets,
        ).rx_errs,
        net_totals(cur.nets).tx_errs <= u64::MAX ==> system_rate(prev, cur).net_tx_errs == net_totals(
            cur.nets,
        ).tx_errs,
        system_rate(prev, cur).per_cpu_pct.len() <= cur.cpu.per_cpu.len(),
        system_rate(prev, cur).per_cpu_pct.len() <= prev.cpu.per_cpu.len(),
        system_rate(prev, cur).per_cpu_pct.len() == cur.cpu.per_cpu.len() || system_rate(
            prev,
            cur,
        ).per_cpu_pct.len() == prev.cpu.per_cpu.len(),
{
}

/// Whether between two readings of a CPU `quarters` quarters of its time were
/// busy.
pub open spec fn busy_for(prev: CpuTimes, cur: CpuTimes, quarters: nat) -> bool {
    let busy = cur.busy_sum() - prev.busy_sum();
    let total = cur.sum() - prev.sum();
    0 <= busy && 0 < total < 0x20_0000_0000_0000 && 4 * busy == quarters * total && quarters <= 4
}

proof fn lemma_quarters(prev: CpuTimes, cur: CpuTimes, quarters: nat)
    requires
        busy_for(prev, cur, quarters),
    ensures
        cpu_share(prev, cur) == of_int((25 * quarters) as int),
{
    let busy = (cur.busy_sum() - prev.busy_sum()) as nat;
    let total = (cur.sum() - prev.sum()) as nat;
    assert(busy <= total) by (nonlinear_arith)
        requires
            4 * busy == quarters * total,
            quarters <= 4,
    ;
    law_quarters_are_exact(quarters, busy, total);
    law_whole_numbers_keep_their_order((25 * quarters) as int, 0);
    law_whole_numbers_keep_their_order(100, (25 * quarters) as int);
}

/// A CPU that was busy a quarter of the time has a share of 25 percent, and so
/// on up to all of it: the system as a whole by its own reading, and every core
/// by its own. A CPU for which no time passed has no share.
pub proof fn law_cpu_shares_are_busy_time(prev: SampleView, cur: SampleView, quarters: nat, i: int)
    ensures
        busy_for(prev.cpu.total, cur.cpu.total, quarters) ==> system_rate(prev, cur).cpu_pct == of_int(
            (25 * quarters) as int,
        ),
        0 <= i < prev.cpu.per_cpu.len() && i < cur.cpu.per_cpu.len() && busy_for(
            prev.cpu.per_cpu[i],
            cur.cpu.per_cpu[i],
            quarters,
        ) ==> system_rate(prev, cur).per_cpu_pct[i] == of_int((25 * quarters) as int),
        cur.cpu.total.sum() <= prev.cpu.total.sum() ==> system_rate(prev, cur).cpu_pct == of_int(0),
        0 <= i < prev.cpu.per_cpu.len() && i < cur.cpu.per_cpu.len() && cur.cpu.per_cpu[i].sum()
            <= prev.cpu.per_cpu[i].sum() ==> system_rate(prev, cur).per_cpu_pct[i] == of_int(0),
{
    if busy_for(prev.cpu.total, cur.cpu.total, quarters) {
        lemma_quarters(prev.cpu.total, cur.cpu.total, quarters);
    }
    if 0 <= i < prev.cpu.per_cpu.len() && i < cur.cpu.per_cpu.len() && busy_for(
        prev.cpu.per_cpu[i],
        cur.cpu.per_cpu[i],
        quarters,
    ) {
        lemma_quarters(prev.cpu.per_cpu[i], cur.cpu.per_cpu[i], quarters);
    }
}

/// More busy time out of the same time is no smaller a share.
pub proof fn law_more_busy_time_is_no_smaller_a_share(prev: CpuTimes, a: CpuTimes, b: CpuTimes)
    requires
        a.fits(),
        b.fits(),
        a.sum() == b.sum(),
        a.busy_sum() <= b.busy_sum(),
        prev.sum() < a.sum(),
    ensures
        cpu_share(prev, a).le(cpu_share(prev, b)),
{
    let t = (a.sum() - prev.sum()) as nat;
    let x = less_or_zero(a.busy_sum(), prev.busy_sum());
    let y = less_or_zero(b.busy_sum(), prev.busy_sum());
    law_quotients_keep_order(x, y, t);
    law_whole_numbers_keep_their_order(0, 100);
    law_whole_numbers_keep_their_order(0, 0);
    law_whole_numbers_keep_their_order(100, 100);
}

// -------------------------------------------------------------- processes --

/// Whether the CPU time of a process grew by `dt` ticks.
pub open spec fn ran_for(prev: ProcSampleView, cur: ProcSampleView, dt: nat) -> bool {
    cur.stat.utime + cur.stat.stime == prev.stat.utime + prev.stat.stime + dt
}

/// A process that used as many ticks as `quarters` quarters of a core have in the
/// time between the samples used that many times 25 percent, without an upper
/// bound: one core is a hundred, and four are four hundred.
pub proof fn law_every_core_is_a_hundred_percent(
    prev: SampleView,
    cur: SampleView,
    consts: SysConst,
    key: ProcKey,
    q: nat,
    quarters: nat,
    dt: nat,
)
    requires
        apart(prev, cur, q),
        prev.procs.contains_key(key),
        cur.procs.contains_key(key),
        consts.clk_tck > 0,
        consts.clk_tck * q < 0x20_0000_0000_0000,
        4 * dt < 0x20_0000_0000_0000,
        quarters < 0x1_0000_0000,
        16 * dt == quarters * (consts.clk_tck * q),
        ran_for(prev.procs[key], cur.procs[key], dt),
    ensures
        rate_between(prev, cur, consts, key).cpu_pct == of_int((25 * quarters) as int),
{
    lemma_core_quarters(consts.clk_tck, q, quarters, dt);
    lemma_time_passed(q);
}

proof fn lemma_core_quarters(hz: u64, q: nat, quarters: nat, dt: nat)
    requires
        hz > 0,
        0 < q < 0x20_0000_0000_0000,
        hz * q < 0x20_0000_0000_0000,
        4 * dt < 0x20_0000_0000_0000,
        quarters < 0x1_0000_0000,
        16 * dt == quarters * (hz * q),
    ensures
        core_share(dt, hz, secs_real(q * 250_000_000)) == of_int((25 * quarters) as int),
{
    let n = (hz * q) as nat;
    assert(hz <= n && n > 0) by (nonlinear_arith)
        requires
            n == hz * q,
            hz > 0,
            q > 0,
    ;
    lemma_time_passed(q);
    lemma_ticks_in(hz, q);
    lemma_over_quarters(dt, n);
    law_quarters_are_exact(quarters, 4 * dt, n);
}

proof fn lemma_ticks_in(hz: u64, q: nat)
    requires
        hz > 0,
        0 < q < 0x20_0000_0000_0000,
        0 < hz * q < 0x20_0000_0000_0000,
    ensures
        of_int(hz as int).product(of_int(q as int).quotient(of_int(4))) == of_int((hz * q) as int).quotient(
            of_int(4),
        ),
{
    let w = one_units();
    vstd::arithmetic::power2::lemma_pow2_pos(1074);
    let n = (hz * q) as nat;
    assert(hz <= n) by (nonlinear_arith)
        requires
            n == hz * q,
            q > 0,
    ;
    law_small_whole_numbers_are_exact(hz as nat);
    lemma_quarter(q);
    lemma_quarter(n);
    let s = of_int(q as int).quotient(of_int(4));
    let z = of_int(n as int).quotient(of_int(4));
    let su = s.units();
    let zu = z.units();
    let hw = hz as nat * w;
    assert(4 * (hw * su) == hw * (q * w)) by (nonlinear_arith)
        requires
            su * 4 == q * w,
    ;
    assert(hw * (q * w) == (n * w) * w) by (nonlinear_arith)
        requires
            hw == hz * w,
            n == hz * q,
    ;
    assert(4 * (zu * w) == (n * w) * w) by (nonlinear_arith)
        requires
            zu * 4 == n * w,
    ;
    assert(hw * su == zu * w);
    lemma_exact_product(of_int(hz as int), s, z);
}

/// A process that used as many ticks as `k` cores have in a whole number of
/// seconds used `k` hundred percent.
pub proof fn law_cores_add_up(hz: u64, seconds: nat, k: nat)
    requires
        hz > 0,
        seconds > 0,
        k < 0x4000_0000,
        k * (hz * seconds) < 0x8_0000_0000_0000,
        hz * seconds < 0x8_0000_0000_0000,
    ensures
        core_share((k * (hz * seconds)) as nat, hz, secs_real(seconds * 1_000_000_000)) == of_int(
            (100 * k) as int,
        ),
{
    let n = (hz * seconds) as nat;
    let q = 4 * seconds;
    let dt = (k * n) as nat;
    assert(seconds <= n && hz * q == 4 * n && 16 * dt == (4 * k) * (hz * q)) by (nonlinear_arith)
        requires
            n == hz * seconds,
            dt == k * n,
            q == 4 * seconds,
            hz > 0,
    ;
    lemma_core_quarters(hz, q, 4 * k, dt);
    assert(q * 250_000_000 == seconds * 1_000_000_000);
}

/// A process without an earlier reading of its own is new and has used nothing
/// yet; one that has is not. CPU time that stands still or runs backwards is
/// none, and so is that of samples taken at one instant.
#[verifier::rlimit(40)]
pub proof fn law_without_growth_there_is_no_cpu(
    prev: SampleView,
    cur: SampleView,
    consts: SysConst,
    key: ProcKey,
    q: nat,
)
    requires
        cur.procs.contains_key(key),
    ensures
        rate_between(prev, cur, consts, key).is_new <==> !prev.procs.contains_key(key),
        !prev.procs.contains_key(key) ==> rate_between(prev, cur, consts, key).cpu_pct == of_int(0),
        cur.at.nanos <= prev.at.nanos ==> rate_between(prev, cur, consts, key).cpu_pct == of_int(0),
        apart(prev, cur, q) && prev.procs.contains_key(key) && consts.clk_tck > 0 && consts.clk_tck * q
            < 0x20_0000_0000_0000 && cur.procs[key].stat.utime + cur.procs[key].stat.stime
            <= prev.procs[key].stat.utime + prev.procs[key].stat.stime ==> rate_between(
            prev,
            cur,
            consts,
            key,
        ).cpu_pct == of_int(0),
{
    law_whole_numbers_keep_their_order(0, 0);
    if cur.at.nanos <= prev.at.nanos {
        law_quarters_of_a_second_are_exact(0);
        law_whole_numbers_are_finite(4);
        lemma_zero_over(of_int(4));
    }
    if apart(prev, cur, q) && consts.clk_tck > 0 && consts.clk_tck * q < 0x20_0000_0000_0000 {
        lemma_core_quarters(consts.clk_tck, q, 0, 0);
        lemma_time_passed(q);
    }
}

/// Each I/O rate of a process is the growth per second of its own counter:
/// block-layer reads and writes, and the bytes of read and write calls.
pub proof fn law_io_rates_are_growth_per_second(
    prev: SampleView,
    cur: SampleView,
    consts: SysConst,
    key: ProcKey,
    a: PidIo,
    b: PidIo,
    q: nat,
    n: nat,
)
    requires
        apart(prev, cur, q),
        prev.procs.contains_key(key),
        cur.procs.contains_key(key),
        prev.procs[key].io == Some(a),
        cur.procs[key].io == Some(b),
    ensures
        grew(a.read_bytes as nat, b.read_bytes as nat, n, q) ==> rate_between(prev, cur, consts, key).read_bps == Some(
            of_int(n as int),
        ),
        grew(a.write_bytes as nat, b.write_bytes as nat, n, q) ==> rate_between(prev, cur, consts, key).write_bps
            == Some(of_int(n as int)),
        grew(a.rchar as nat, b.rchar as nat, n, q) ==> rate_between(prev, cur, consts, key).rchar_bps == Some(
            of_int(n as int),
        ),
        grew(a.wchar as nat, b.wchar as nat, n, q) ==> rate_between(prev, cur, consts, key).wchar_bps == Some(
            of_int(n as int),
        ),
        b.read_bytes <= a.read_bytes ==> rate_between(prev, cur, consts, key).read_bps == Some(of_int(0)),
        b.write_bytes <= a.write_bytes ==> rate_between(prev, cur, consts, key).write_bps == Some(
            of_int(0),
        ),
        b.rchar <= a.rchar ==> rate_between(prev, cur, consts, key).rchar_bps == Some(of_int(0)),
        b.wchar <= a.wchar ==> rate_between(prev, cur, consts, key).wchar_bps == Some(of_int(0)),
{
    if grew(a.read_bytes as nat, b.read_bytes as nat, n, q) {
        lemma_per_second(b.read_bytes as nat, a.read_bytes as nat, n, q);
    }
    if grew(a.write_bytes as nat, b.write_bytes as nat, n, q) {
        lemma_per_second(b.write_bytes as nat, a.write_bytes as nat, n, q);
    }
    if grew(a.rchar as nat, b.rchar as nat, n, q) {
        lemma_per_second(b.rchar as nat, a.rchar as nat, n, q);
    }
    if grew(a.wchar as nat, b.wchar as nat, n, q) {
        lemma_per_second(b.wchar as nat, a.wchar as nat, n, q);
    }
    let nanos = (q * 250_000_000) as nat;
    if b.read_bytes <= a.read_bytes {
        law_counters_going_backwards_read_as_zero(b.read_bytes as nat, a.read_bytes as nat, nanos);
    }
    if b.write_bytes <= a.write_bytes {
        law_counters_going_backwards_read_as_zero(b.write_bytes as nat, a.write_bytes as nat, nanos);
    }
    if b.rchar <= a.rchar {
        law_counters_going_backwards_read_as_zero(b.rchar as nat, a.rchar as nat, nanos);
    }
    if b.wchar <= a.wchar {
        law_counters_going_backwards_read_as_zero(b.wchar as nat, a.wchar as nat, nanos);
    }
}

/// Counters that cannot be read have no rate, rather than one of zero; where
/// they can be read for the first time the rate is not yet known to be more than
/// zero.
pub proof fn law_unreadable_counters_have_no_rate(
    prev: SampleView,
    cur: SampleView,
    consts: SysConst,
    key: ProcKey,
)
    ensures
        ({
            let r = rate_between(prev, cur, consts, key);
            let first = !prev.procs.contains_key(key) || prev.procs[key].io is None;
            let zero = Some(of_int(0));
            &&& cur.procs[key].io is None ==> r.read_bps is None && r.write_bps is None && r.rchar_bps is None
                && r.wchar_bps is None
            &&& cur.procs[key].io is Some && first ==> r.read_bps == zero && r.write_bps == zero && r.rchar_bps
                == zero && r.wchar_bps == zero
            &&& cur.procs[key].io is Some ==> r.read_bps is Some && r.write_bps is Some && r.rchar_bps is Some
                && r.wchar_bps is Some
        }),
{
}

/// What is no rate is what the later sample says of the process. The resident
/// size is its pages times the size of a page, and nothing where the kernel
/// gives a negative number of pages.
pub proof fn law_the_later_sample_names_the_process(
    prev: SampleView,
    cur: SampleView,
    consts: SysConst,
    key: ProcKey,
)
    ensures
        ({
            let r = rate_between(prev, cur, consts, key);
            let p = cur.procs[key].stat;
            &&& r.key == key
            &&& r.pid == p.pid
            &&& r.ppid == p.ppid
            &&& r.comm == p.comm
            &&& r.state == p.state
            &&& r.threads == p.num_threads
            &&& r.vsize_bytes == p.vsize
            &&& r.sockets == cur.procs[key].sockets
            &&& p.rss_pages <= 0 ==> r.rss_bytes == 0
            &&& p.rss_pages > 0 && p.rss_pages * consts.page_size <= u64::MAX ==> r.rss_bytes == p.rss_pages
                * consts.page_size
        }),
{
}

/// Every process of the later sample is listed once and no other is, those that
/// use more CPU first, and of those that use as much the larger first.
pub proof fn law_processes_are_listed_by_cpu_and_size(
    procs: Seq<ProcRate>,
    prev: SampleView,
    cur: SampleView,
    consts: SysConst,
    key: ProcKey,
    i: int,
    j: int,
)
    requires
        lists_rates(procs, prev, cur, consts),
    ensures
        cur.procs.contains_key(key) ==> exists|k: int| 0 <= k < procs.len() && (#[trigger] procs[k]).key == key,
        0 <= i < procs.len() ==> cur.procs.contains_key(procs[i].key) && procs[i]@ == rate_between(
            prev,
            cur,
            consts,
            procs[i].key,
        ),
        0 <= i < j < procs.len() ==> procs[i].key != procs[j].key,
        0 <= i < j < procs.len() ==> !procs[i].cpu_pct.lt(procs[j].cpu_pct),
        0 <= i < j < procs.len() && !procs[j].cpu_pct.lt(procs[i].cpu_pct) ==> procs[i].rss_bytes
            >= procs[j].rss_bytes,
{
    if 0 <= i < j < procs.len() {
        assert(ranks(procs[i]@, procs[j]@));
    }
}

/// Where no time passed nothing has a rate.
pub proof fn law_without_time_there_are_no_rates(prev: SampleView, cur: SampleView, consts: SysConst, key: ProcKey)
    requires
        cur.at.nanos <= prev.at.nanos,
    ensures
        system_rate(prev, cur).net_rx_bps == of_int(0),
        system_rate(prev, cur).net_tx_bps == of_int(0),
        system_rate(prev, cur).ctxt_per_sec == of_int(0),
        ({
            let r = rate_between(prev, cur, consts, key);
            let zero = Some(of_int(0));
            cur.procs[key].io is Some ==> r.read_bps == zero && r.write_bps == zero && r.rchar_bps == zero
                && r.wchar_bps == zero
        }),
{
    law_quarters_of_a_second_are_exact(0);
    law_whole_numbers_are_finite(4);
    lemma_zero_over(of_int(4));
    law_whole_numbers_keep_their_order(0, 0);
}

/// Two samples can be compared as long as there is a tick rate and every sum,
/// size and time that the rates are made of fits a `u64`: the times of every CPU,
/// the totals of the network, the resident size of every process, and, where time
/// passed, the CPU time of every process that was there before.
pub proof fn law_samples_that_fit_can_be_compared(prev: SampleView, cur: SampleView, consts: SysConst)
    ensures
        can_diff(prev, cur, consts) <==> ({
            &&& consts.clk_tck > 0
            &&& prev.cpu.total.sum() <= u64::MAX
            &&& cur.cpu.total.sum() <= u64::MAX
            &&& forall|i: int|
                0 <= i < prev.cpu.per_cpu.len() && i < cur.cpu.per_cpu.len()
                    ==> (#[trigger] prev.cpu.per_cpu[i]).sum() <= u64::MAX && cur.cpu.per_cpu[i].sum()
                    <= u64::MAX
            &&& net_totals(prev.nets).fits()
            &&& net_totals(cur.nets).fits()
            &&& forall|k: ProcKey| #[trigger]
                cur.procs.contains_key(k) ==> {
                    let p = cur.procs[k].stat;
                    &&& p.rss_pages > 0 ==> p.rss_pages * consts.page_size <= u64::MAX
                    &&& prev.procs.contains_key(k) && of_int(0).lt(
                        secs_real(
                            if cur.at.nanos >= prev.at.nanos {
                                (cur.at.nanos - prev.at.nanos) as nat
                            } else {
                                0
                            },
                        ),
                    ) ==> p.utime + p.stime <= u64::MAX && prev.procs[k].stat.utime
                        + prev.procs[k].stat.stime <= u64::MAX
                }
        }),
{
    let a = prev.cpu.per_cpu;
    let b = cur.cpu.per_cpu;
    if can_diff(prev, cur, consts) {
        assert forall|i: int| 0 <= i < a.len() && i < b.len() implies (#[trigger] a[i]).sum() <= u64::MAX
            && b[i].sum() <= u64::MAX by {
            assert(core_fits(a, b, i));
        }
    }
}

/// The seconds of a span of time are its whole seconds and the billionths that
/// are left, each as near as can be.
pub proof fn law_seconds_and_what_is_left(seconds: nat, nanos: nat)
    requires
        nanos < 1_000_000_000,
    ensures
        secs_real(seconds * 1_000_000_000 + nanos) == of_int(seconds as int).sum(
            of_int(nanos as int).quotient(of_int(1_000_000_000)),
        ),
{
    let n = (seconds * 1_000_000_000 + nanos) as nat;
    assert(n / 1_000_000_000 == seconds && n % 1_000_000_000 == nanos);
}

/// Over any time that passed, a rate is the growth of its own counter divided by
/// the seconds, and a counter that ran backwards did not grow.
pub proof fn law_rates_are_growth_over_time(prev: SampleView, cur: SampleView, consts: SysConst, key: ProcKey)
    requires
        cur.at.nanos > prev.at.nanos,
        of_int(0).lt(secs_real((cur.at.nanos - prev.at.nanos) as nat)),
    ensures
        ({
            let secs = secs_real((cur.at.nanos - prev.at.nanos) as nat);
            let over = |a: nat, b: nat|
                of_int(
                    if b >= a {
                        b - a
                    } else {
                        0
                    },
                ).quotient(secs);
            let s = system_rate(prev, cur);
            let r = rate_between(prev, cur, consts, key);
            &&& s.net_rx_bps == over(net_totals(prev.nets).rx_bytes, net_totals(cur.nets).rx_bytes)
            &&& s.net_tx_bps == over(net_totals(prev.nets).tx_bytes, net_totals(cur.nets).tx_bytes)
            &&& s.ctxt_per_sec == over(prev.cpu.ctxt as nat, cur.cpu.ctxt as nat)
            &&& prev.procs.contains_key(key) && prev.procs[key].io is Some && cur.procs[key].io is Some ==> ({
                let a = prev.procs[key].io->0;
                let b = cur.procs[key].io->0;
                &&& r.read_bps == Some(over(a.read_bytes as nat, b.read_bytes as nat))
                &&& r.write_bps == Some(over(a.write_bytes as nat, b.write_bytes as nat))
                &&& r.rchar_bps == Some(over(a.rchar as nat, b.rchar as nat))
                &&& r.wchar_bps == Some(over(a.wchar as nat, b.wchar as nat))
            })
            &&& prev.procs.contains_key(key) ==> ({
                let a = (prev.procs[key].stat.utime + prev.procs[key].stat.stime) as nat;
                let b = (cur.procs[key].stat.utime + cur.procs[key].stat.stime) as nat;
                let dt = of_int(
                    if b >= a {
                        b - a
                    } else {
                        0
                    },
                );
                r.cpu_pct == dt.quotient(of_int(consts.clk_tck as int).product(secs)).product(of_int(100))
            })
        }),
{
}

/// The share of a CPU is its busy time out of all its time, in percent and never
/// beyond a hundred, for the system as a whole and for every core.
pub proof fn law_shares_are_busy_out_of_all(prev: SampleView, cur: SampleView, i: int)
    ensures
        ({
            let of = |a: CpuTimes, b: CpuTimes|
                of_int(
                    if b.busy_sum() >= a.busy_sum() {
                        b.busy_sum() - a.busy_sum()
                    } else {
                        0
                    },
                ).quotient(of_int(b.sum() - a.sum())).product(of_int(100)).held_between(of_int(0), of_int(100));
            &&& cur.cpu.total.sum() > prev.cpu.total.sum() ==> system_rate(prev, cur).cpu_pct == of(
                prev.cpu.total,
                cur.cpu.total,
            )
            &&& 0 <= i < prev.cpu.per_cpu.len() && i < cur.cpu.per_cpu.len() && cur.cpu.per_cpu[i].sum()
                > prev.cpu.per_cpu[i].sum() ==> system_rate(prev, cur).per_cpu_pct[i] == of(
                prev.cpu.per_cpu[i],
                cur.cpu.per_cpu[i],
            )
        }),
{
}

/// Milliseconds of a span of time are its seconds a thousand times: 250 for every
/// quarter of a second.
pub proof fn law_milliseconds_are_seconds_a_thousand_times(q: nat, d: Duration)
    requires
        q < 0x1_0000_0000,
    ensures
        millis(d) == secs_real(d.nanos as nat).product(of_int(1000)),
        d.nanos == q * 250_000_000 ==> millis(d) == of_int((250 * q) as int),
{
    law_quarters_of_a_second_are_exact(q);
    lemma_quarters_times_1000(q);
}

proof fn lemma_quarters_times_1000(q: nat)
    requires
        q < 0x1_0000_0000,
    ensures
        of_int(q as int).quotient(of_int(4)).product(of_int(1000)) == of_int((250 * q) as int),
{
    let w = one_units();
    vstd::arithmetic::power2::lemma_pow2_pos(1074);
    if q == 0 {
        law_whole_numbers_are_finite(4);
        lemma_zero_over(of_int(4));
        law_small_products_are_exact(0, 1000);
    } else {
        lemma_quarter(q);
        law_small_whole_numbers_are_exact(1000);
        law_small_whole_numbers_are_exact(250 * q);
        let u = of_int(q as int).quotient(of_int(4)).units();
        let z = of_int((250 * q) as int);
        assert(u * (1000 * w) == (250 * (u * 4)) * w) by (nonlinear_arith);
        assert((250 * (q * w)) * w == ((250 * q) * w) * w) by (nonlinear_arith);
        assert(u * (1000 * w) == z.units() * w);
        lemma_exact_product(of_int(q as int).quotient(of_int(4)), of_int(1000), z);
    }
}

} // verus!
