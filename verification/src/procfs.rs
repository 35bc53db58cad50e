//! Parsers for the `/proc` files.
//!
//! Every function here is a pure function from text to a value. The kernel's
//! authoritative description of these formats is `proc(5)`.

use vstd::prelude::*;
use vstd::slice::slice_subrange;

use crate::binary64::{law_percent_of_whole, law_whole_numbers_are_finite, lemma_units_order, of_int, percent, Binary64};
use crate::numbers::{
    parse_i32, parse_i64, parse_u64, read_i32, read_i64, read_u64, read_u64_or_zero, u64_or_zero,
};
use crate::text::{
    after_prefix, all_of, ascii_digit, ascii_space, before_suffix, chars_of, digits, ends_with, find, find_last, first_index,
    is_ascii_space, is_digit, last_index, last_of, lemma_first_index, lemma_last_index, lemma_span, lemma_take_line, lemma_tokens_not_empty, lines, same,
    span, split_lines, split_tokens, starts_with, string_of, tokens, trim, trimmed, views, without_first,
};

verus! {

// ------------------------------------------------------------ /proc/stat --

/// One CPU's cumulative time, in clock ticks since boot.
#[derive(Debug, Clone, Copy, PartialEq, Eq, Structural)]
pub struct CpuTimes {
    pub user: u64,
    pub nice: u64,
    pub system: u64,
    pub idle: u64,
    pub iowait: u64,
    pub irq: u64,
    pub softirq: u64,
    pub steal: u64,
    pub guest: u64,
    pub guest_nice: u64,
}

/// No time at all.
pub open spec fn no_times() -> CpuTimes {
    CpuTimes {
        user: 0,
        nice: 0,
        system: 0,
        idle: 0,
        iowait: 0,
        irq: 0,
        softirq: 0,
        steal: 0,
        guest: 0,
        guest_nice: 0,
    }
}

impl Default for CpuTimes {
    fn default() -> (r: CpuTimes)
        ensures
            r == no_times(),
    {
        CpuTimes {
            user: 0,
            nice: 0,
            system: 0,
            idle: 0,
            iowait: 0,
            irq: 0,
            softirq: 0,
            steal: 0,
            guest: 0,
            guest_nice: 0,
        }
    }
}

impl CpuTimes {
    /// Total ticks accounted for.
    ///
    /// `guest` and `guest_nice` are left out: the kernel already counts guest
    /// time inside `user`, and nice guest time inside `nice`. Adding them again
    /// inflates the denominator and makes every CPU percentage read low on a
    /// machine running virtual machines.
    pub open spec fn sum(self) -> nat {
        (self.user + self.nice + self.system + self.idle + self.iowait + self.irq + self.softirq
            + self.steal) as nat
    }

    /// Whether the ticks accounted for fit a `u64`.
    pub open spec fn fits(self) -> bool {
        self.sum() <= u64::MAX
    }

    /// Ticks not spent idle. `iowait` counts as idle: the CPU was available, it
    /// just had nothing to run.
    pub open spec fn busy_sum(self) -> nat {
        (self.sum() - self.idle - self.iowait) as nat
    }

    /// Total ticks accounted for.
    pub fn total(&self) -> (r: u64)
        requires
            self.fits(),
        ensures
            r == self.sum(),
    {
        self.user + self.nice + self.system + self.idle + self.iowait + self.irq + self.softirq
            + self.steal
    }

    /// Ticks not spent idle.
    pub fn busy(&self) -> (r: u64)
        requires
            self.fits(),
        ensures
            r == self.busy_sum(),
    {
        self.total() - self.idle - self.iowait
    }

    /// Whether the ticks accounted for fit a `u64`.
    pub fn in_range(&self) -> (r: bool)
        ensures
            r == self.fits(),
    {
        self.user as u128 + self.nice as u128 + self.system as u128 + self.idle as u128 + self.iowait as u128
            + self.irq as u128 + self.softirq as u128 + self.steal as u128 <= u64::MAX as u128
    }
}

/// Column `i` of a line of numbers; a missing column, or one that is no number,
/// is zero.
pub open spec fn column(t: Seq<Seq<char>>, i: int) -> u64 {
    if 0 <= i < t.len() {
        u64_or_zero(t[i])
    } else {
        0
    }
}

/// The times on a line, from the text after its name. Older kernels emit fewer
/// columns.
pub open spec fn cpu_times(rest: Seq<char>) -> CpuTimes {
    let t = tokens(rest);
    CpuTimes {
        user: column(t, 0),
        nice: column(t, 1),
        system: column(t, 2),
        idle: column(t, 3),
        iowait: column(t, 4),
        irq: column(t, 5),
        softirq: column(t, 6),
        steal: column(t, 7),
        guest: column(t, 8),
        guest_nice: column(t, 9),
    }
}

fn column_of(t: &Vec<&[char]>, i: usize) -> (r: u64)
    ensures
        r == column(views(t@), i as int),
{
    if i < t.len() {
        read_u64_or_zero(t[i])
    } else {
        0
    }
}

fn parse_cpu_line(rest: &[char]) -> (r: CpuTimes)
    ensures
        r == cpu_times(rest@),
{
    let t = split_tokens(rest);
    CpuTimes {
        user: column_of(&t, 0),
        nice: column_of(&t, 1),
        system: column_of(&t, 2),
        idle: column_of(&t, 3),
        iowait: column_of(&t, 4),
        irq: column_of(&t, 5),
        softirq: column_of(&t, 6),
        steal: column_of(&t, 7),
        guest: column_of(&t, 8),
        guest_nice: column_of(&t, 9),
    }
}

/// What `/proc/stat` says.
#[derive(Debug, Clone, Default)]
pub struct StatFile {
    pub total: CpuTimes,
    pub per_cpu: Vec<CpuTimes>,
    /// Context switches since boot; a useful secondary signal.
    pub ctxt: u64,
    pub procs_running: u64,
    pub procs_blocked: u64,
}

/// The contents of a `StatFile`.
pub struct StatFileView {
    pub total: CpuTimes,
    pub per_cpu: Seq<CpuTimes>,
    pub ctxt: u64,
    pub procs_running: u64,
    pub procs_blocked: u64,
}

impl View for StatFile {
    type V = StatFileView;

    open spec fn view(&self) -> StatFileView {
        StatFileView {
            total: self.total,
            per_cpu: self.per_cpu@,
            ctxt: self.ctxt,
            procs_running: self.procs_running,
            procs_blocked: self.procs_blocked,
        }
    }
}

/// Reads the line of all CPUs together: `cpu`, whitespace, the times.
pub open spec fn total_line() -> spec_fn(Seq<char>) -> Option<CpuTimes> {
    |l: Seq<char>|
        {
            let n = "cpu"@.len() as int;
            if starts_with(l, "cpu"@) && n < l.len() && is_ascii_space(l[n]) {
                Some(cpu_times(l.skip(n)))
            } else {
                None
            }
        }
}

/// Reads the line of one CPU: `cpu`, its index, the times.
pub open spec fn core_line() -> spec_fn(Seq<char>) -> Option<CpuTimes> {
    |l: Seq<char>|
        {
            let n = "cpu"@.len() as int;
            let rest = l.skip(n);
            if starts_with(l, "cpu"@) && n < l.len() && is_digit(l[n]) {
                Some(cpu_times(rest.skip(span(rest, digits()) as int)))
            } else {
                None
            }
        }
}

/// Reads the number on the line that begins with `name`.
pub open spec fn counter_line(name: Seq<char>) -> spec_fn(Seq<char>) -> Option<u64> {
    |l: Seq<char>|
        if starts_with(l, name) {
            Some(u64_or_zero(trim(l.skip(name.len() as int))))
        } else {
            None
        }
}

/// Whether the names of the counters differ from one another and from the
/// prefix of the CPU lines in a way that no line has two of them.
proof fn lemma_counter_names(l: Seq<char>)
    ensures
        starts_with(l, "ctxt "@) ==> !starts_with(l, "cpu"@) && !starts_with(l, "procs_running "@)
            && !starts_with(l, "procs_blocked "@),
        starts_with(l, "procs_running "@) ==> !starts_with(l, "cpu"@) && !starts_with(
            l,
            "procs_blocked "@,
        ),
        starts_with(l, "procs_blocked "@) ==> !starts_with(l, "cpu"@),
{
    reveal_strlit("cpu");
    reveal_strlit("ctxt ");
    reveal_strlit("procs_running ");
    reveal_strlit("procs_blocked ");
    if starts_with(l, "ctxt "@) {
        assert(l.take(5)[1] == 't');
        if starts_with(l, "cpu"@) {
            assert(l.take(3)[1] == 'p');
        }
        if starts_with(l, "procs_running "@) {
            assert(l.take(14)[1] == 'r');
        }
        if starts_with(l, "procs_blocked "@) {
            assert(l.take(14)[1] == 'r');
        }
    }
    if starts_with(l, "procs_running "@) {
        assert(l.take(14)[0] == 'p');
        assert(l.take(14)[6] == 'r');
        if starts_with(l, "cpu"@) {
            assert(l.take(3)[0] == 'c');
        }
        if starts_with(l, "procs_blocked "@) {
            assert(l.take(14)[6] == 'b');
        }
    }
    if starts_with(l, "procs_blocked "@) {
        assert(l.take(14)[0] == 'p');
        if starts_with(l, "cpu"@) {
            assert(l.take(3)[0] == 'c');
        }
    }
}

/// What `/proc/stat` says. Where a line occurs more than once the last one
/// counts; what no line says is zero.
pub open spec fn stat_file(s: Seq<char>) -> StatFileView {
    StatFileView {
        total: last_of(lines(s), total_line(), no_times()),
        per_cpu: all_of(lines(s), core_line()),
        ctxt: last_of(lines(s), counter_line("ctxt "@), 0),
        procs_running: last_of(lines(s), counter_line("procs_running "@), 0),
        procs_blocked: last_of(lines(s), counter_line("procs_blocked "@), 0),
    }
}

/// Parses `/proc/stat`.
pub fn parse_proc_stat(s: &str) -> (r: StatFile)
    ensures
        r@ == stat_file(s@),
{
    let text = chars_of(s);
    let ls = split_lines(text.as_slice());
    let ghost all = lines(s@);
    let mut total = CpuTimes::default();
    let mut per_cpu: Vec<CpuTimes> = Vec::new();
    let mut ctxt: u64 = 0;
    let mut running: u64 = 0;
    let mut blocked: u64 = 0;
    let mut i: usize = 0;
    while i < ls.len()
        invariant
            i <= ls.len(),
            all == views(ls@),
            total == last_of(all.take(i as int), total_line(), no_times()),
            per_cpu@ == all_of(all.take(i as int), core_line()),
            ctxt == last_of(all.take(i as int), counter_line("ctxt "@), 0),
            running == last_of(all.take(i as int), counter_line("procs_running "@), 0),
            blocked == last_of(all.take(i as int), counter_line("procs_blocked "@), 0),
        decreases ls.len() - i,
    {
        let l = ls[i];
        proof {
            assert(all[i as int] == l@);
            lemma_take_line(all, i as int);
            lemma_counter_names(l@);
        }
        if let Some(rest) = after_prefix(l, "cpu") {
            if rest.len() > 0 {
                let c = rest[0];
                if ascii_space(c) {
                    total = parse_cpu_line(rest);
                } else if ascii_digit(c) {
                    let mut j: usize = 0;
                    while j < rest.len() && ascii_digit(rest[j])
                        invariant
                            j <= rest.len(),
                            forall|k: int| 0 <= k < j ==> is_digit(rest@[k]),
                        decreases rest.len() - j,
                    {
                        j += 1;
                    }
                    proof {
                        lemma_span(rest@, digits(), j as nat);
                    }
                    let after = slice_subrange(rest, j, rest.len());
                    assert(after@ =~= rest@.skip(j as int));
                    per_cpu.push(parse_cpu_line(after));
                }
            }
        } else if let Some(v) = after_prefix(l, "ctxt ") {
            ctxt = read_u64_or_zero(trimmed(v));
        } else if let Some(v) = after_prefix(l, "procs_running ") {
            running = read_u64_or_zero(trimmed(v));
        } else if let Some(v) = after_prefix(l, "procs_blocked ") {
            blocked = read_u64_or_zero(trimmed(v));
        }
        i += 1;
    }
    assert(all.take(i as int) =~= all);
    StatFile { total, per_cpu, ctxt, procs_running: running, procs_blocked: blocked }
}

// ------------------------------------------------------- /proc/[pid]/stat --

/// Identity of a process. A bare PID is not an identity: the kernel recycles
/// PIDs, and on a busy machine it can happen within seconds.
///
/// `starttime` is the boot-relative time the process began, in clock ticks. It
/// never changes for a live process, and a recycled PID will practically always
/// have a different one.
#[derive(Debug, Clone, Copy, PartialEq, Eq, Hash, PartialOrd, Ord, Structural)]
pub struct ProcKey {
    pub pid: i32,
    pub starttime: u64,
}

/// What `/proc/[pid]/stat` says of a process.
#[derive(Debug, Clone, Default, PartialEq)]
pub struct PidStat {
    pub pid: i32,
    pub comm: String,
    pub state: char,
    pub ppid: i32,
    pub utime: u64,
    pub stime: u64,
    pub num_threads: i64,
    pub starttime: u64,
    pub vsize: u64,
    /// Resident set, in pages. Multiply by the page size for bytes.
    pub rss_pages: i64,
}

/// The contents of a `PidStat`.
pub struct PidStatView {
    pub pid: i32,
    pub comm: Seq<char>,
    pub state: char,
    pub ppid: i32,
    pub utime: u64,
    pub stime: u64,
    pub num_threads: i64,
    pub starttime: u64,
    pub vsize: u64,
    pub rss_pages: i64,
}

impl View for PidStat {
    type V = PidStatView;

    open spec fn view(&self) -> PidStatView {
        PidStatView {
            pid: self.pid,
            comm: self.comm@,
            state: self.state,
            ppid: self.ppid,
            utime: self.utime,
            stime: self.stime,
            num_threads: self.num_threads,
            starttime: self.starttime,
            vsize: self.vsize,
            rss_pages: self.rss_pages,
        }
    }
}

impl PidStatView {
    /// The identity of the process.
    pub open spec fn key(self) -> ProcKey {
        ProcKey { pid: self.pid, starttime: self.starttime }
    }

    /// The resident set in bytes, for pages of `page_size` bytes.
    pub open spec fn rss(self, page_size: nat) -> nat {
        if self.rss_pages <= 0 {
            0
        } else {
            self.rss_pages as nat * page_size
        }
    }

    /// The CPU time consumed, in ticks.
    pub open spec fn ticks(self) -> nat {
        (self.utime + self.stime) as nat
    }
}

impl PidStat {
    /// The identity of the process.
    pub fn key(&self) -> (r: ProcKey)
        ensures
            r == self@.key(),
    {
        ProcKey { pid: self.pid, starttime: self.starttime }
    }

    /// The resident set in bytes, for pages of `page_size` bytes.
    pub fn rss_bytes(&self, page_size: u64) -> (r: u64)
        requires
            self@.rss(page_size as nat) <= u64::MAX,
        ensures
            r == self@.rss(page_size as nat),
    {
        if self.rss_pages <= 0 {
            0
        } else {
            self.rss_pages as u64 * page_size
        }
    }

    /// The CPU time consumed, in ticks.
    pub fn cpu_ticks(&self) -> (r: u64)
        requires
            self@.ticks() <= u64::MAX,
        ensures
            r == self@.ticks(),
    {
        self.utime + self.stime
    }

    /// Whether the resident set in bytes fits a `u64`.
    pub fn rss_in_range(&self, page_size: u64) -> (r: bool)
        ensures
            r == (self@.rss(page_size as nat) <= u64::MAX),
    {
        self.rss_pages <= 0 || (self.rss_pages as u64).checked_mul(page_size).is_some()
    }

    /// Whether the CPU time fits a `u64`.
    pub fn ticks_in_range(&self) -> (r: bool)
        ensures
            r == (self@.ticks() <= u64::MAX),
    {
        self.utime.checked_add(self.stime).is_some()
    }
}

/// The fields after the name, split on whitespace. Field `i` here is field
/// `i + 3` in the numbering of `proc(5)`.
pub open spec fn pid_stat_fields(t: Seq<Seq<char>>, pid: i32, comm: Seq<char>) -> Option<PidStatView> {
    if t.len() > 21 && parse_i32(t[1]) is Some && parse_u64(t[11]) is Some && parse_u64(t[12]) is Some
        && parse_i64(t[17]) is Some && parse_u64(t[19]) is Some && parse_u64(t[20]) is Some && parse_i64(
        t[21],
    ) is Some {
        Some(
            PidStatView {
                pid,
                comm,
                state: t[0][0],
                ppid: parse_i32(t[1])->0,
                utime: parse_u64(t[11])->0,
                stime: parse_u64(t[12])->0,
                num_threads: parse_i64(t[17])->0,
                starttime: parse_u64(t[19])->0,
                vsize: parse_u64(t[20])->0,
                rss_pages: parse_i64(t[21])->0,
            },
        )
    } else {
        None
    }
}

/// What a `/proc/[pid]/stat` line says: `pid (comm) state ppid ...`.
///
/// The name may itself contain spaces and parentheses, so it reaches from the
/// first `(` to the last `)`. What follows the last `)` splits on whitespace
/// safely.
pub open spec fn pid_stat(s: Seq<char>) -> Option<PidStatView> {
    let open = first_index(s, '(') as int;
    let close = last_index(s, ')');
    if open >= s.len() || close < open {
        None
    } else {
        match parse_i32(trim(s.take(open))) {
            Some(pid) => pid_stat_fields(
                tokens(s.skip(close + 1)),
                pid,
                s.subrange(open + 1, close),
            ),
            None => None,
        }
    }
}

/// Parses `/proc/[pid]/stat`.
pub fn parse_pid_stat(s: &str) -> (r: Option<PidStat>)
    ensures
        match r {
            Some(p) => pid_stat(s@) == Some(p@),
            None => pid_stat(s@) is None,
        },
{
    let text = chars_of(s);
    let c = text.as_slice();
    let open = match find(c, '(') {
        Some(i) => i,
        None => return None,
    };
    let close = match find_last(c, ')') {
        Some(i) => i,
        None => return None,
    };
    if close < open {
        return None;
    }
    let head = slice_subrange(c, 0, open);
    assert(head@ =~= s@.take(open as int));
    let pid = match read_i32(trimmed(head)) {
        Some(n) => n,
        None => return None,
    };
    let comm = string_of(slice_subrange(c, open + 1, close));
    let n = c.len();
    let tail = slice_subrange(c, close + 1, n);
    assert(tail@ =~= s@.skip(close + 1));
    let t = split_tokens(tail);
    let ghost tv = tokens(tail@);
    proof {
        lemma_tokens_not_empty(tail@);
        assert(views(t@).len() == t@.len());
    }
    if t.len() <= 21 {
        return None;
    }
    assert(forall|i: int| 0 <= i < t.len() ==> (#[trigger] t@[i])@ == tv[i]);
    assert(tv[0].len() > 0);
    let state = t[0][0];
    match (
        read_i32(t[1]),
        read_u64(t[11]),
        read_u64(t[12]),
        read_i64(t[17]),
        read_u64(t[19]),
        read_u64(t[20]),
        read_i64(t[21]),
    ) {
        (
            Some(ppid),
            Some(utime),
            Some(stime),
            Some(num_threads),
            Some(starttime),
            Some(vsize),
            Some(rss_pages),
        ) => Some(
            PidStat { pid, comm, state, ppid, utime, stime, num_threads, starttime, vsize, rss_pages },
        ),
        _ => None,
    }
}

// --------------------------------------------------------- /proc/[pid]/io --

/// Cumulative I/O counters for one process.
///
/// `read_bytes` and `write_bytes` are what actually went to or from the block
/// layer. `rchar` and `wchar` count bytes passed to read and write calls, which
/// includes data served from page cache and data that never reaches a disk.
#[derive(Debug, Clone, Copy, PartialEq, Eq, Structural)]
pub struct PidIo {
    pub rchar: u64,
    pub wchar: u64,
    pub read_bytes: u64,
    pub write_bytes: u64,
}

impl Default for PidIo {
    fn default() -> (r: PidIo)
        ensures
            r == (PidIo { rchar: 0, wchar: 0, read_bytes: 0, write_bytes: 0 }),
    {
        PidIo { rchar: 0, wchar: 0, read_bytes: 0, write_bytes: 0 }
    }
}

/// The text after the first colon of a line whose name before it is `key`,
/// both trimmed.
pub open spec fn keyed(l: Seq<char>, key: Seq<char>) -> Option<Seq<char>> {
    let i = first_index(l, ':') as int;
    if i < l.len() && trim(l.take(i)) == key {
        Some(trim(l.skip(i + 1)))
    } else {
        None
    }
}

/// Splits a line at its first colon and trims both parts.
fn split_key<'a>(l: &'a [char]) -> (r: Option<(&'a [char], &'a [char])>)
    ensures
        match r {
            Some((k, v)) => forall|key: Seq<char>| #[trigger]
                keyed(l@, key) == if k@ == key {
                    Some(v@)
                } else {
                    None
                },
            None => forall|key: Seq<char>| #[trigger] keyed(l@, key) is None,
        },
{
    match find(l, ':') {
        Some(i) => {
            let a = slice_subrange(l, 0, i);
            let n = l.len();
            let b = slice_subrange(l, i + 1, n);
            assert(a@ =~= l@.take(i as int));
            assert(b@ =~= l@.skip(i + 1));
            Some((trimmed(a), trimmed(b)))
        },
        None => None,
    }
}

/// Reads the number on the line of `key`.
pub open spec fn io_line(key: Seq<char>) -> spec_fn(Seq<char>) -> Option<u64> {
    |l: Seq<char>|
        match keyed(l, key) {
            Some(v) => Some(u64_or_zero(v)),
            None => None,
        }
}

/// The counter `key`; zero where no line has it.
pub open spec fn io_counter(ls: Seq<Seq<char>>, key: Seq<char>) -> u64 {
    last_of(ls, io_line(key), 0)
}

/// What `/proc/[pid]/io` says.
pub open spec fn pid_io(s: Seq<char>) -> PidIo {
    PidIo {
        rchar: io_counter(lines(s), "rchar"@),
        wchar: io_counter(lines(s), "wchar"@),
        read_bytes: io_counter(lines(s), "read_bytes"@),
        write_bytes: io_counter(lines(s), "write_bytes"@),
    }
}

/// Parses `/proc/[pid]/io`.
pub fn parse_pid_io(s: &str) -> (r: PidIo)
    ensures
        r == pid_io(s@),
{
    let text = chars_of(s);
    let ls = split_lines(text.as_slice());
    let ghost all = lines(s@);
    let mut io = PidIo::default();
    let mut i: usize = 0;
    while i < ls.len()
        invariant
            i <= ls.len(),
            all == views(ls@),
            io.rchar == io_counter(all.take(i as int), "rchar"@),
            io.wchar == io_counter(all.take(i as int), "wchar"@),
            io.read_bytes == io_counter(all.take(i as int), "read_bytes"@),
            io.write_bytes == io_counter(all.take(i as int), "write_bytes"@),
        decreases ls.len() - i,
    {
        let l = ls[i];
        proof {
            assert(all[i as int] == l@);
            lemma_take_line(all, i as int);
        }
        if let Some((k, v)) = split_key(l) {
            let n = read_u64_or_zero(v);
            if same(k, "rchar") {
                io.rchar = n;
            }
            if same(k, "wchar") {
                io.wchar = n;
            }
            if same(k, "read_bytes") {
                io.read_bytes = n;
            }
            if same(k, "write_bytes") {
                io.write_bytes = n;
            }
        }
        i += 1;
    }
    assert(all.take(i as int) =~= all);
    io
}

// ----------------------------------------------------------- /proc/meminfo --

/// Memory sizes, in bytes.
#[derive(Debug, Clone, Copy, PartialEq, Eq, Structural)]
pub struct MemInfo {
    pub total: u64,
    pub free: u64,
    pub available: u64,
    pub buffers: u64,
    pub cached: u64,
    pub swap_total: u64,
    pub swap_free: u64,
}

impl Default for MemInfo {
    fn default() -> (r: MemInfo)
        ensures
            r == (MemInfo {
                total: 0,
                free: 0,
                available: 0,
                buffers: 0,
                cached: 0,
                swap_total: 0,
                swap_free: 0,
            }),
    {
        MemInfo { total: 0, free: 0, available: 0, buffers: 0, cached: 0, swap_total: 0, swap_free: 0 }
    }
}

impl MemInfo {
    /// Used memory: the total less what is available.
    ///
    /// Not the total less what is free: that counts page cache as used and
    /// makes a healthy machine look permanently out of memory.
    pub open spec fn used_bytes(self) -> nat {
        if self.available <= self.total {
            (self.total - self.available) as nat
        } else {
            0
        }
    }

    /// The share of memory that is used, in percent.
    pub open spec fn used_percent(self) -> Binary64 {
        if self.total == 0 {
            of_int(0)
        } else {
            percent(self.used_bytes(), self.total as nat)
        }
    }

    /// Used memory.
    pub fn used(&self) -> (r: u64)
        ensures
            r == self.used_bytes(),
    {
        self.total.saturating_sub(self.available)
    }

    /// The share of memory that is used, in percent.
    pub fn used_pct(&self) -> (r: Binary64)
        ensures
            r == self.used_percent(),
    {
        if self.total == 0 {
            Binary64::from_u64(0)
        } else {
            Binary64::from_u64(self.used()).over(&Binary64::from_u64(self.total)).times(
                &Binary64::from_u64(100),
            )
        }
    }
}

/// The bytes that a value such as `12345 kB` stands for: its first word in
/// kibibytes, at most what a `u64` holds.
pub open spec fn kib_bytes(v: Seq<char>) -> u64 {
    let t = tokens(v);
    let kb = if t.len() > 0 {
        u64_or_zero(t[0])
    } else {
        0
    };
    if kb * 1024 <= u64::MAX {
        (kb * 1024) as u64
    } else {
        u64::MAX
    }
}

/// Reads the size on the line of `key`.
pub open spec fn mem_line(key: Seq<char>) -> spec_fn(Seq<char>) -> Option<u64> {
    |l: Seq<char>|
        match keyed(l, key) {
            Some(v) => Some(kib_bytes(v)),
            None => None,
        }
}

/// The size `key`; zero where no line has it.
pub open spec fn mem_size(ls: Seq<Seq<char>>, key: Seq<char>) -> u64 {
    last_of(ls, mem_line(key), 0)
}

/// The sizes as the lines give them.
pub open spec fn mem_sizes(ls: Seq<Seq<char>>) -> MemInfo {
    MemInfo {
        total: mem_size(ls, "MemTotal"@),
        free: mem_size(ls, "MemFree"@),
        available: mem_size(ls, "MemAvailable"@),
        buffers: mem_size(ls, "Buffers"@),
        cached: mem_size(ls, "Cached"@),
        swap_total: mem_size(ls, "SwapTotal"@),
        swap_free: mem_size(ls, "SwapFree"@),
    }
}

/// Whether a line has `key`.
pub open spec fn has_key(ls: Seq<Seq<char>>, key: Seq<char>) -> bool {
    exists|i: int| 0 <= i < ls.len() && keyed(#[trigger] ls[i], key) is Some
}

/// Whether the kernel does not say what is available, as old ones do not.
pub open spec fn lacks_available(ls: Seq<Seq<char>>) -> bool {
    !has_key(ls, "MemAvailable"@)
}

/// Whether what is available has to be guessed: there is memory, and no line
/// says how much of it is available. A line that says none is available is
/// believed.
pub open spec fn needs_guess(ls: Seq<Seq<char>>) -> bool {
    lacks_available(ls) && mem_sizes(ls).total > 0
}

impl MemInfo {
    /// What could be available, as old kernels let one guess it.
    pub open spec fn guess(self) -> nat {
        (self.free + self.buffers + self.cached) as nat
    }
}

/// What `/proc/meminfo` says, with a guess where it does not say what is
/// available.
pub open spec fn meminfo(s: Seq<char>) -> MemInfo {
    let m = mem_sizes(lines(s));
    if needs_guess(lines(s)) {
        MemInfo { available: m.guess() as u64, ..m }
    } else {
        m
    }
}

/// Whether the guess, where one is needed, fits a `u64`.
pub open spec fn meminfo_fits(s: Seq<char>) -> bool {
    needs_guess(lines(s)) ==> mem_sizes(lines(s)).guess() <= u64::MAX
}

fn read_kib(v: &[char]) -> (r: u64)
    ensures
        r == kib_bytes(v@),
{
    let t = split_tokens(v);
    let kb = if t.len() > 0 {
        assert(views(t@)[0] == t@[0]@);
        read_u64_or_zero(t[0])
    } else {
        0
    };
    match kb.checked_mul(1024) {
        Some(bytes) => bytes,
        None => u64::MAX,
    }
}

/// The sizes as the lines give them, and whether one is what is available.
fn read_sizes(s: &str) -> (r: (MemInfo, bool))
    ensures
        r.0 == mem_sizes(lines(s@)),
        r.1 == !lacks_available(lines(s@)),
{
    let text = chars_of(s);
    let ls = split_lines(text.as_slice());
    let ghost all = lines(s@);
    let mut m = MemInfo::default();
    let mut said = false;
    let mut i: usize = 0;
    while i < ls.len()
        invariant
            i <= ls.len(),
            all == views(ls@),
            m == mem_sizes(all.take(i as int)),
            said == has_key(all.take(i as int), "MemAvailable"@),
        decreases ls.len() - i,
    {
        let l = ls[i];
        proof {
            assert(all[i as int] == l@);
            lemma_take_line(all, i as int);
            lemma_has_key(all, "MemAvailable"@, i as int);
        }
        if let Some((k, v)) = split_key(l) {
            let bytes = read_kib(v);
            if same(k, "MemTotal") {
                m.total = bytes;
            }
            if same(k, "MemFree") {
                m.free = bytes;
            }
            if same(k, "MemAvailable") {
                m.available = bytes;
                said = true;
            }
            if same(k, "Buffers") {
                m.buffers = bytes;
            }
            if same(k, "Cached") {
                m.cached = bytes;
            }
            if same(k, "SwapTotal") {
                m.swap_total = bytes;
            }
            if same(k, "SwapFree") {
                m.swap_free = bytes;
            }
        }
        i += 1;
    }
    assert(all.take(i as int) =~= all);
    (m, said)
}

proof fn lemma_has_key(ls: Seq<Seq<char>>, key: Seq<char>, n: int)
    requires
        0 <= n < ls.len(),
    ensures
        has_key(ls.take(n + 1), key) <==> has_key(ls.take(n), key) || keyed(ls[n], key) is Some,
{
    let a = ls.take(n);
    let b = ls.take(n + 1);
    if has_key(a, key) {
        let i = choose|i: int| 0 <= i < a.len() && keyed(#[trigger] a[i], key) is Some;
        assert(b[i] == a[i]);
    }
    assert(b[n] == ls[n]);
    if has_key(b, key) {
        let i = choose|i: int| 0 <= i < b.len() && keyed(#[trigger] b[i], key) is Some;
        if i < n {
            assert(a[i] == b[i]);
        }
    }
}

/// Parses `/proc/meminfo`, unless the sizes in it are beyond a `u64`.
pub fn checked_meminfo(s: &str) -> (r: Option<MemInfo>)
    ensures
        r is Some <==> meminfo_fits(s@),
        r matches Some(m) ==> m == meminfo(s@),
{
    let (mut m, said) = read_sizes(s);
    if !said && m.total > 0 {
        let sum = m.free as u128 + m.buffers as u128 + m.cached as u128;
        if sum > u64::MAX as u128 {
            return None;
        }
        m.available = sum as u64;
    }
    Some(m)
}

/// Parses `/proc/meminfo`.
pub fn parse_meminfo(s: &str) -> (m: MemInfo)
    requires
        meminfo_fits(s@),
    ensures
        m == meminfo(s@),
{
    let (mut m, said) = read_sizes(s);
    if !said && m.total > 0 {
        m.available = m.free + m.buffers + m.cached;
    }
    m
}

// ---------------------------------------------------------- /proc/net/dev --

/// Counters of one network interface.
#[derive(Debug, Clone, Default, PartialEq, Eq)]
pub struct NetDev {
    pub name: String,
    pub rx_bytes: u64,
    pub rx_packets: u64,
    pub rx_errs: u64,
    pub rx_drop: u64,
    pub tx_bytes: u64,
    pub tx_packets: u64,
    pub tx_errs: u64,
    pub tx_drop: u64,
}

/// The contents of a `NetDev`.
pub struct NetDevView {
    pub name: Seq<char>,
    pub rx_bytes: u64,
    pub rx_packets: u64,
    pub rx_errs: u64,
    pub rx_drop: u64,
    pub tx_bytes: u64,
    pub tx_packets: u64,
    pub tx_errs: u64,
    pub tx_drop: u64,
}

impl View for NetDev {
    type V = NetDevView;

    open spec fn view(&self) -> NetDevView {
        NetDevView {
            name: self.name@,
            rx_bytes: self.rx_bytes,
            rx_packets: self.rx_packets,
            rx_errs: self.rx_errs,
            rx_drop: self.rx_drop,
            tx_bytes: self.tx_bytes,
            tx_packets: self.tx_packets,
            tx_errs: self.tx_errs,
            tx_drop: self.tx_drop,
        }
    }
}

/// The contents of a list of interfaces.
pub open spec fn net_views(v: Seq<NetDev>) -> Seq<NetDevView> {
    v.map_values(|n: NetDev| n@)
}

/// Reads the line of an interface: its name, a colon and sixteen counters. The
/// first counter can run right up against the colon, so the line splits there
/// first.
pub open spec fn net_line() -> spec_fn(Seq<char>) -> Option<NetDevView> {
    |l: Seq<char>|
        {
            let i = first_index(l, ':') as int;
            let f = tokens(l.skip(i + 1));
            if i < l.len() && f.len() >= 16 {
                Some(
                    NetDevView {
                        name: trim(l.take(i)),
                        rx_bytes: u64_or_zero(f[0]),
                        rx_packets: u64_or_zero(f[1]),
                        rx_errs: u64_or_zero(f[2]),
                        rx_drop: u64_or_zero(f[3]),
                        tx_bytes: u64_or_zero(f[8]),
                        tx_packets: u64_or_zero(f[9]),
                        tx_errs: u64_or_zero(f[10]),
                        tx_drop: u64_or_zero(f[11]),
                    },
                )
            } else {
                None
            }
        }
}

/// The interfaces in `/proc/net/dev`, which begins with two header lines.
pub open spec fn net_devs(s: Seq<char>) -> Seq<NetDevView> {
    all_of(without_first(lines(s), 2), net_line())
}

/// Parses `/proc/net/dev`.
pub fn parse_net_dev(s: &str) -> (r: Vec<NetDev>)
    ensures
        net_views(r@) == net_devs(s@),
{
    let text = chars_of(s);
    let ls = split_lines(text.as_slice());
    let ghost all = without_first(lines(s@), 2);
    let mut out: Vec<NetDev> = Vec::new();
    assert(net_views(out@) =~= all_of(all.take(0), net_line()));
    if ls.len() <= 2 {
        assert(all.take(0) =~= all);
        return out;
    }
    let mut i: usize = 2;
    while i < ls.len()
        invariant
            2 <= i <= ls.len(),
            all == views(ls@).skip(2),
            net_views(out@) == all_of(all.take(i - 2), net_line()),
        decreases ls.len() - i,
    {
        let l = ls[i];
        proof {
            assert(all[i - 2] == l@);
            lemma_take_line(all, i - 2);
        }
        let ghost before = out@;
        if let Some(c) = find(l, ':') {
            let a = slice_subrange(l, 0, c);
            let n = l.len();
            let b = slice_subrange(l, c + 1, n);
            assert(a@ =~= l@.take(c as int));
            assert(b@ =~= l@.skip(c + 1));
            let f = split_tokens(b);
            assert(views(f@).len() == f@.len());
            if f.len() >= 16 {
                assert(forall|k: int| 0 <= k < f.len() ==> (#[trigger] f@[k])@ == views(f@)[k]);
                let dev = NetDev {
                    name: string_of(trimmed(a)),
                    rx_bytes: read_u64_or_zero(f[0]),
                    rx_packets: read_u64_or_zero(f[1]),
                    rx_errs: read_u64_or_zero(f[2]),
                    rx_drop: read_u64_or_zero(f[3]),
                    tx_bytes: read_u64_or_zero(f[8]),
                    tx_packets: read_u64_or_zero(f[9]),
                    tx_errs: read_u64_or_zero(f[10]),
                    tx_drop: read_u64_or_zero(f[11]),
                };
                out.push(dev);
                assert(net_views(out@) =~= net_views(before).push(dev@));
            }
        }
        i += 1;
    }
    assert(all.take(i - 2) =~= all);
    out
}

// ---------------------------------------------------------- /proc/net/tcp --

/// Reads the inode of a line of the socket table, its tenth word; an inode of
/// zero is none.
pub open spec fn inode_line() -> spec_fn(Seq<char>) -> Option<u64> {
    |l: Seq<char>|
        {
            let f = tokens(l);
            if f.len() > 9 && parse_u64(f[9]) is Some && parse_u64(f[9]) != Some(0u64) {
                parse_u64(f[9])
            } else {
                None
            }
        }
}

/// The inodes in `/proc/net/tcp`, which begins with one header line.
///
/// There is no per-process byte counter for the network in `/proc`. What it has
/// is a socket table with inode numbers, and each process's descriptors link to
/// `socket:[inode]`. Joining the two tells which process owns which connection.
pub fn parse_net_tcp_inodes(s: &str) -> (r: Vec<u64>)
    ensures
        r@ == all_of(without_first(lines(s@), 1), inode_line()),
{
    let text = chars_of(s);
    let ls = split_lines(text.as_slice());
    let ghost all = without_first(lines(s@), 1);
    let mut out: Vec<u64> = Vec::new();
    if ls.len() <= 1 {
        return out;
    }
    let mut i: usize = 1;
    while i < ls.len()
        invariant
            1 <= i <= ls.len(),
            all == views(ls@).skip(1),
            out@ == all_of(all.take(i - 1), inode_line()),
        decreases ls.len() - i,
    {
        let l = ls[i];
        proof {
            assert(all[i - 1] == l@);
            lemma_take_line(all, i - 1);
        }
        let f = split_tokens(l);
        assert(views(f@).len() == f@.len());
        if f.len() > 9 {
            assert(views(f@)[9] == f@[9]@);
            if let Some(ino) = read_u64(f[9]) {
                if ino != 0 {
                    out.push(ino);
                }
            }
        }
        i += 1;
    }
    assert(all.take(i - 1) =~= all);
    out
}

/// The inode in the target of a descriptor's link, such as `socket:[12345]`.
pub open spec fn socket_inode(target: Seq<char>) -> Option<u64> {
    let rest = target.skip("socket:["@.len() as int);
    if starts_with(target, "socket:["@) && ends_with(rest, "]"@) {
        parse_u64(rest.take(rest.len() - "]"@.len()))
    } else {
        None
    }
}

/// The inode in the target of a descriptor's link, if it is that of a socket.
pub fn socket_inode_from_link(target: &str) -> (r: Option<u64>)
    ensures
        r == socket_inode(target@),
{
    let text = chars_of(target);
    match after_prefix(text.as_slice(), "socket:[") {
        Some(rest) => match before_suffix(rest, "]") {
            Some(digits) => read_u64(digits),
            None => None,
        },
        None => None,
    }
}

// ------------------------------------------------------------------ laws --

/// Guest time is part of user time: reporting it changes no total.
pub proof fn law_guest_time_is_not_counted_twice(t: CpuTimes, guest: u64, guest_nice: u64)
    ensures
        (CpuTimes { guest, guest_nice, ..t }).sum() == t.sum(),
        (CpuTimes { guest, guest_nice, ..t }).busy_sum() == t.busy_sum(),
{
}

/// Busy time is the part of the total that was neither idle nor waiting.
pub proof fn law_busy_is_part_of_total(t: CpuTimes)
    ensures
        t.busy_sum() + t.idle + t.iowait == t.sum(),
{
}

/// A name comes back verbatim, whatever it holds: spaces and parentheses
/// included.
pub proof fn law_names_are_verbatim(head: Seq<char>, comm: Seq<char>, tail: Seq<char>)
    requires
        !head.contains('('),
        !tail.contains(')'),
    ensures
        pid_stat(head + seq!['('] + comm + seq![')'] + tail) == match parse_i32(trim(head)) {
            Some(pid) => pid_stat_fields(tokens(tail), pid, comm),
            None => None,
        },
{
    let s = head + seq!['('] + comm + seq![')'] + tail;
    let open = head.len() as int;
    let close = open + 1 + comm.len();
    assert(s[open] == '(');
    assert(s[close] == ')');
    assert forall|k: int| 0 <= k < open implies s[k] != '(' by {
        assert(s[k] == head[k]);
    }
    assert forall|k: int| close < k < s.len() implies s[k] != ')' by {
        assert(s[k] == tail[k - close - 1]);
    }
    lemma_first_index(s, '(', open);
    lemma_last_index(s, ')', close);
    assert(s.take(open) =~= head);
    assert(s.subrange(open + 1, close) =~= comm);
    assert(s.skip(close + 1) =~= tail);
}

/// What the kernel says is available is kept, even where it is nothing.
pub proof fn law_what_is_said_to_be_available_is_kept(s: Seq<char>)
    requires
        has_key(lines(s), "MemAvailable"@),
    ensures
        meminfo(s) == mem_sizes(lines(s)),
        meminfo_fits(s),
{
}

/// Used memory is between nought and a hundred percent.
pub proof fn law_used_percent_is_a_percentage(m: MemInfo)
    ensures
        of_int(0).le(m.used_percent()),
        m.used_percent().le(of_int(100)),
{
    law_whole_numbers_are_finite(0);
    law_whole_numbers_are_finite(100);
    if m.total > 0 {
        law_percent_of_whole(m.used_bytes(), m.total as nat);
    } else {
        lemma_units_order(0, of_int(0).magnitude());
        lemma_units_order(0, of_int(100).magnitude());
    }
}

} // verus!
