//! Taking one sample of the whole system.
//!
//! `/proc` is a live view, not a snapshot. Processes vanish mid-scan, PIDs are
//! recycled and some files are unreadable. A scan counts the first, keys on
//! (pid, starttime) because of the second, and reports the third as absent
//! rather than as zero.
//!
//! Reading the files is the caller's part. What each outcome of a read means
//! is decided here.

use vstd::prelude::*;

use crate::numbers::{parse_i32, read_i32};
use crate::procfs::{
    checked_meminfo, meminfo_fits, net_devs, net_views, parse_net_dev, parse_pid_io, parse_pid_stat,
    parse_proc_stat, pid_io, pid_stat, socket_inode, socket_inode_from_link, stat_file, MemInfo, NetDev, NetDevView,
    PidIo, PidStat, PidStatView, ProcKey, StatFile, StatFileView,
};
use crate::table::{Key, Table};
use crate::text::{all_of, chars_of, copy_str, lemma_take_line, texts};
use crate::time::{Duration, Instant};


verus! {

/// One process as a scan found it.
#[derive(Debug, Clone)]
pub struct ProcSample {
    pub stat: PidStat,
    /// None when `/proc/[pid]/io` is not readable.
    pub io: Option<PidIo>,
    /// Open socket count, only populated when socket attribution is enabled.
    pub sockets: Option<usize>,
}

/// The contents of a `ProcSample`.
pub struct ProcSampleView {
    pub stat: PidStatView,
    pub io: Option<PidIo>,
    pub sockets: Option<usize>,
}

impl View for ProcSample {
    type V = ProcSampleView;

    open spec fn view(&self) -> ProcSampleView {
        ProcSampleView { stat: self.stat@, io: self.io, sockets: self.sockets }
    }
}

impl Key for ProcKey {
    open spec fn precedes(self, other: ProcKey) -> bool {
        self.pid < other.pid || (self.pid == other.pid && self.starttime < other.starttime)
    }

    proof fn in_a_row(a: ProcKey, b: ProcKey, c: ProcKey) {
    }

    proof fn one_way(a: ProcKey, b: ProcKey) {
    }

    fn before(&self, other: &ProcKey) -> bool {
        self.pid < other.pid || (self.pid == other.pid && self.starttime < other.starttime)
    }
}

/// The processes of a sample by their identity.
pub type ProcTable = Table<ProcKey, ProcSample>;

// --------------------------------------------------------------- samples --

/// One sample of the whole system.
#[derive(Debug, Clone)]
pub struct Sample {
    /// Monotonic instant of the scan start.
    pub at: Instant,
    pub cpu: StatFile,
    pub mem: MemInfo,
    pub nets: Vec<NetDev>,
    pub procs: ProcTable,
    /// Processes that disappeared between listing and reading. Surfaced rather
    /// than hidden: a high number is a real signal about the machine.
    pub vanished: u32,
    /// Processes whose `/proc/[pid]/io` was not permitted to be read.
    pub io_denied: u32,
    /// How long this scan took.
    pub scan_time: Duration,
}

/// The contents of a `Sample`.
pub struct SampleView {
    pub at: Instant,
    pub cpu: StatFileView,
    pub mem: MemInfo,
    pub nets: Seq<NetDevView>,
    pub procs: Map<ProcKey, ProcSampleView>,
    pub vanished: u32,
    pub io_denied: u32,
    pub scan_time: Duration,
}

impl View for Sample {
    type V = SampleView;

    open spec fn view(&self) -> SampleView {
        SampleView {
            at: self.at,
            cpu: self.cpu@,
            mem: self.mem,
            nets: net_views(self.nets@),
            procs: self.procs@,
            vanished: self.vanished,
            io_denied: self.io_denied,
            scan_time: self.scan_time,
        }
    }
}

// ----------------------------------------------------- outcomes of a read --

/// Why a file could not be read.
#[derive(Debug, Clone, Copy, PartialEq, Eq, Structural)]
pub enum ErrorKind {
    NotFound,
    PermissionDenied,
    Other,
}

/// A read that failed.
#[derive(Debug, Clone)]
pub struct ReadError {
    pub kind: ErrorKind,
    /// The operating system's number for the failure.
    pub os_code: Option<i32>,
    pub message: String,
}

/// The operating system's number for "no such process".
pub const NO_SUCH_PROCESS: i32 = 3;

/// Whether a read failed because the process is gone. A dying task surfaces as
/// "no such process" on some kernels.
pub open spec fn is_gone(r: Result<String, ReadError>) -> bool {
    r matches Err(e) && (e.kind == ErrorKind::NotFound || e.os_code == Some(NO_SUCH_PROCESS))
}

/// Whether a read was refused.
pub open spec fn is_denied(r: Result<String, ReadError>) -> bool {
    r matches Err(e) && e.kind == ErrorKind::PermissionDenied
}

fn gone(e: &ReadError) -> (r: bool)
    ensures
        r == is_gone(Err(*e)),
{
    let no_process = match e.os_code {
        Some(code) => code == NO_SUCH_PROCESS,
        None => false,
    };
    e.kind == ErrorKind::NotFound || no_process
}

/// The text of one file belonging to a process, with "it exited" mapped to
/// `None`. Every other failure stays one.
pub fn read_pid(r: Result<String, ReadError>) -> (out: Result<Option<String>, ReadError>)
    ensures
        out == match r {
            Ok(s) => Ok::<Option<String>, ReadError>(Some(s)),
            Err(e) => if is_gone(r) {
                Ok(None)
            } else {
                Err(e)
            },
        },
{
    match r {
        Ok(s) => Ok(Some(s)),
        Err(e) => {
            if gone(&e) {
                Ok(None)
            } else {
                Err(e)
            }
        },
    }
}

/// Reads a name as a PID.
pub open spec fn pid_name() -> spec_fn(Seq<char>) -> Option<i32> {
    |name: Seq<char>| parse_i32(name)
}

/// The numeric names among the entries of the `/proc` root, in order. Others
/// (`self`, `net`, `sys`) are skipped.
pub fn list_pids(names: &Vec<String>) -> (r: Vec<i32>)
    ensures
        r@ == all_of(texts(names@), pid_name()),
{
    let mut out: Vec<i32> = Vec::new();
    let ghost all = texts(names@);
    let mut i: usize = 0;
    while i < names.len()
        invariant
            i <= names.len(),
            all == texts(names@),
            out@ == all_of(all.take(i as int), pid_name()),
        decreases names.len() - i,
    {
        let name = chars_of(names[i].as_str());
        proof {
            assert(all[i as int] == name@);
            lemma_take_line(all, i as int);
        }
        if let Some(pid) = read_i32(name.as_slice()) {
            out.push(pid);
        }
        i += 1;
    }
    assert(all.take(i as int) =~= all);
    out
}

/// Reads the target of a link as a socket.
pub open spec fn socket_link() -> spec_fn(Seq<char>) -> Option<u64> {
    |target: Seq<char>| socket_inode(target)
}

/// The number of sockets among the targets of a process's descriptors.
pub open spec fn socket_count(targets: Seq<Seq<char>>) -> nat {
    all_of(targets, socket_link()).len()
}

/// The number of sockets among the targets of a process's descriptors, where
/// they could be listed.
pub fn count_sockets(targets: &Option<Vec<String>>) -> (r: Option<usize>)
    ensures
        match (targets, r) {
            (Some(v), Some(n)) => n == socket_count(texts(v@)),
            (None, None) => true,
            _ => false,
        },
{
    let v = match targets {
        Some(v) => v,
        None => return None,
    };
    let mut n: usize = 0;
    let ghost all = texts(v@);
    let mut i: usize = 0;
    while i < v.len()
        invariant
            i <= v.len(),
            n <= i,
            all == texts(v@),
            n == socket_count(all.take(i as int)),
        decreases v.len() - i,
    {
        proof {
            assert(all[i as int] == v@[i as int]@);
            lemma_take_line(all, i as int);
        }
        if socket_inode_from_link(v[i].as_str()).is_some() {
            n += 1;
        }
        i += 1;
    }
    assert(all.take(i as int) =~= all);
    Some(n)
}

// ----------------------------------------------------------------- scans --

/// Where samples come from.
#[derive(Debug, Clone)]
pub struct Collector {
    /// The path under which the files are.
    pub root: String,
    /// Attributing sockets to processes means a listing of `/proc/[pid]/fd` for
    /// every process, which is by far the most expensive thing in a scan. Off
    /// by default.
    pub with_sockets: bool,
}

/// What a scan is waiting for.
#[derive(Debug)]
enum Stage {
    /// The stat file of the process at the cursor.
    Stat,
    /// The I/O counters of that process.
    Io(PidStat),
    /// The links of its descriptors.
    Links(PidStat, Option<PidIo>),
}

/// The contents of a `Stage`.
pub enum StageView {
    Stat,
    Io(PidStatView),
    Links(PidStatView, Option<PidIo>),
}

impl View for Stage {
    type V = StageView;

    closed spec fn view(&self) -> StageView {
        match self {
            Stage::Stat => StageView::Stat,
            Stage::Io(p) => StageView::Io(p@),
            Stage::Links(p, io) => StageView::Links(p@, *io),
        }
    }
}

/// What to read next.
#[derive(Debug, Clone, Copy, PartialEq, Eq, Structural)]
pub enum Ask {
    /// `[pid]/stat`
    Stat(i32),
    /// `[pid]/io`
    Io(i32),
    /// The targets of the links in `[pid]/fd`
    Links(i32),
    /// Nothing: the scan is complete.
    Done,
}

/// A scan under way: the sample so far, and what is to be read next.
pub struct Scan {
    sample: Sample,
    with_sockets: bool,
    pids: Vec<i32>,
    cursor: usize,
    stage: Stage,
}

/// The contents of a `Scan`.
pub struct ScanView {
    pub sample: SampleView,
    pub with_sockets: bool,
    /// The processes listed and not yet dealt with.
    pub pids: Seq<i32>,
    pub stage: StageView,
}

impl View for Scan {
    type V = ScanView;

    closed spec fn view(&self) -> ScanView {
        ScanView {
            sample: self.sample@,
            with_sockets: self.with_sockets,
            pids: self.pids@.skip(self.cursor as int),
            stage: self.stage@,
        }
    }
}

impl SampleView {
    /// The sample with one more process, put under its identity.
    pub open spec fn with_process(self, p: ProcSampleView) -> SampleView {
        SampleView { procs: self.procs.insert(p.stat.key(), p), ..self }
    }
}

impl ScanView {
    /// What to read next.
    pub open spec fn ask(self) -> Ask {
        if self.pids.len() == 0 {
            Ask::Done
        } else {
            match self.stage {
                StageView::Stat => Ask::Stat(self.pids[0]),
                StageView::Io(_) => Ask::Io(self.pids[0]),
                StageView::Links(..) => Ask::Links(self.pids[0]),
            }
        }
    }

    /// On to the next process.
    pub open spec fn moved_on(self) -> ScanView {
        ScanView { pids: self.pids.skip(1), stage: StageView::Stat, ..self }
    }

    /// On to the next process, with this one in the sample.
    pub open spec fn admitted(self, p: ProcSampleView) -> ScanView {
        ScanView { sample: self.sample.with_process(p), ..self }.moved_on()
    }

    /// After the stat file was read: a process that is gone is counted, and one
    /// whose file is malformed is passed over.
    pub open spec fn after_stat(self, r: Result<String, ReadError>) -> ScanView {
        match r {
            Ok(s) => match pid_stat(s@) {
                Some(p) => ScanView { stage: StageView::Io(p), ..self },
                None => self.moved_on(),
            },
            Err(_) => ScanView {
                sample: SampleView { vanished: (self.sample.vanished + 1) as u32, ..self.sample },
                ..self
            }.moved_on(),
        }
    }

    /// After the I/O counters were read: that the process is gone is counted,
    /// and so is a refusal; whatever went wrong leaves the counters absent.
    pub open spec fn after_io(self, r: Result<String, ReadError>) -> ScanView {
        let p = self.stage->Io_0;
        let io = match r {
            Ok(s) => Some(pid_io(s@)),
            Err(_) => None,
        };
        let counted = ScanView {
            sample: SampleView {
                vanished: if is_gone(r) {
                    (self.sample.vanished + 1) as u32
                } else {
                    self.sample.vanished
                },
                io_denied: if is_denied(r) {
                    (self.sample.io_denied + 1) as u32
                } else {
                    self.sample.io_denied
                },
                ..self.sample
            },
            ..self
        };
        if self.with_sockets {
            ScanView { stage: StageView::Links(p, io), ..counted }
        } else {
            counted.admitted(ProcSampleView { stat: p, io, sockets: None })
        }
    }

    /// After the links were listed.
    pub open spec fn after_links(self, sockets: Option<usize>) -> ScanView {
        self.admitted(
            ProcSampleView { stat: self.stage->Links_0, io: self.stage->Links_1, sockets },
        )
    }
}

impl Default for Collector {
    fn default() -> (r: Collector)
        ensures
            r.root@ == "/proc"@,
            !r.with_sockets,
    {
        Collector::new("/proc")
    }
}

impl Collector {
    /// A collector of the files under `root`, without socket attribution.
    pub fn new(root: &str) -> (r: Collector)
        ensures
            r.root@ == root@,
            !r.with_sockets,
    {
        Collector { root: copy_str(root), with_sockets: false }
    }

    /// The path under which the files are.
    pub fn root(&self) -> (r: &str)
        ensures
            r@ == self.root@,
    {
        self.root.as_str()
    }

    /// Starts a scan, from the system-wide files and the names in the root.
    /// `None` where the sizes in `meminfo` are beyond a `u64`.
    pub fn begin(
        &self,
        at: Instant,
        stat: &str,
        meminfo: &str,
        net_dev: Option<&str>,
        names: &Vec<String>,
    ) -> (r: Option<Scan>)
        ensures
            r is Some <==> meminfo_fits(meminfo@),
            r matches Some(scan) ==> scan.wf() && scan@ == (ScanView {
                sample: SampleView {
                    at,
                    cpu: stat_file(stat@),
                    mem: crate::procfs::meminfo(meminfo@),
                    nets: match net_dev {
                        Some(s) => net_devs(s@),
                        None => Seq::empty(),
                    },
                    procs: Map::empty(),
                    vanished: 0,
                    io_denied: 0,
                    scan_time: (Duration { nanos: 0 }),
                },
                with_sockets: self.with_sockets,
                pids: all_of(texts(names@), pid_name()),
                stage: StageView::Stat,
            }),
    {
        let mem = match checked_meminfo(meminfo) {
            Some(m) => m,
            None => return None,
        };
        let nets = match net_dev {
            Some(s) => parse_net_dev(s),
            None => Vec::new(),
        };
        let sample = Sample {
            at,
            cpu: parse_proc_stat(stat),
            mem,
            nets,
            procs: ProcTable::new(),
            vanished: 0,
            io_denied: 0,
            scan_time: Duration::zero(),
        };
        let scan = Scan {
            sample,
            with_sockets: self.with_sockets,
            pids: list_pids(names),
            cursor: 0,
            stage: Stage::Stat,
        };
        proof {
            assert(scan.pids@.skip(0) =~= scan.pids@);
            if net_dev is None {
                assert(net_views(scan.sample.nets@) =~= Seq::empty());
            }
        }
        Some(scan)
    }
}

impl Scan {
    /// The invariant.
    pub closed spec fn wf(&self) -> bool {
        &&& self.sample.procs.wf()
        &&& self.cursor <= self.pids@.len()
        &&& self.cursor == self.pids@.len() ==> self.stage is Stat
    }

    /// What to read next.
    pub fn ask(&self) -> (r: Ask)
        requires
            self.wf(),
        ensures
            r == self@.ask(),
    {
        if self.cursor == self.pids.len() {
            return Ask::Done;
        }
        let pid = self.pids[self.cursor];
        match self.stage {
            Stage::Stat => Ask::Stat(pid),
            Stage::Io(_) => Ask::Io(pid),
            Stage::Links(..) => Ask::Links(pid),
        }
    }

    /// The processes so far that disappeared between listing and reading.
    pub fn vanished(&self) -> (r: u32)
        ensures
            r == self@.sample.vanished,
    {
        self.sample.vanished
    }

    /// The processes so far whose I/O counters were not permitted to be read.
    pub fn io_denied(&self) -> (r: u32)
        ensures
            r == self@.sample.io_denied,
    {
        self.sample.io_denied
    }

    /// Takes in what reading `[pid]/stat` gave. A failure other than "the
    /// process is gone" aborts the scan.
    pub fn stat_read(&mut self, r: Result<String, ReadError>) -> (out: Result<(), ReadError>)
        requires
            old(self).wf(),
            old(self)@.ask() is Stat,
            is_gone(r) ==> old(self)@.sample.vanished < u32::MAX,
        ensures
            final(self).wf(),
            r is Err && !is_gone(r) ==> out == Err::<(), ReadError>(r->Err_0) && final(self)@ == old(
                self,
            )@,
            r is Ok || is_gone(r) ==> out is Ok && final(self)@ == old(self)@.after_stat(r),
    {
        match read_pid(r) {
            Err(e) => {
                return Err(e);
            },
            Ok(None) => {
                self.sample.vanished = self.sample.vanished + 1;
                self.advance();
            },
            Ok(Some(s)) => match parse_pid_stat(s.as_str()) {
                Some(p) => {
                    self.stage = Stage::Io(p);
                },
                None => {
                    self.advance();
                },
            },
        }
        Ok(())
    }

    /// Takes in what reading `[pid]/io` gave.
    pub fn io_read(&mut self, r: Result<String, ReadError>)
        requires
            old(self).wf(),
            old(self)@.ask() is Io,
            is_gone(r) ==> old(self)@.sample.vanished < u32::MAX,
            is_denied(r) ==> old(self)@.sample.io_denied < u32::MAX,
        ensures
            final(self).wf(),
            final(self)@ == old(self)@.after_io(r),
    {
        let io = match r {
            Ok(s) => Some(parse_pid_io(s.as_str())),
            Err(e) => {
                if gone(&e) {
                    self.sample.vanished = self.sample.vanished + 1;
                }
                if e.kind == ErrorKind::PermissionDenied {
                    self.sample.io_denied = self.sample.io_denied + 1;
                }
                None
            },
        };
        let mut stage = Stage::Stat;
        std::mem::swap(&mut self.stage, &mut stage);
        if let Stage::Io(stat) = stage {
            if self.with_sockets {
                self.stage = Stage::Links(stat, io);
            } else {
                self.take_in(ProcSample { stat, io, sockets: None });
            }
        }
    }

    /// Takes in the targets of the links in `[pid]/fd`, where they could be
    /// listed.
    pub fn links_read(&mut self, targets: Option<Vec<String>>)
        requires
            old(self).wf(),
            old(self)@.ask() is Links,
        ensures
            final(self).wf(),
            final(self)@ == old(self)@.after_links(
                match targets {
                    Some(v) => Some(socket_count(texts(v@)) as usize),
                    None => None,
                },
            ),
    {
        let sockets = count_sockets(&targets);
        let mut stage = Stage::Stat;
        std::mem::swap(&mut self.stage, &mut stage);
        if let Stage::Links(stat, io) = stage {
            self.take_in(ProcSample { stat, io, sockets });
        }
    }

    /// Goes on to the next process.
    fn advance(&mut self)
        requires
            old(self).wf(),
            old(self)@.stage is Stat,
            old(self)@.pids.len() > 0,
        ensures
            final(self).wf(),
            final(self)@ == old(self)@.moved_on(),
    {
        let ghost before = self@;
        if self.cursor < self.pids.len() {
            self.cursor = self.cursor + 1;
        }
        assert(self@.pids =~= before.pids.skip(1));
    }

    /// Puts a process into the sample and goes on to the next.
    fn take_in(&mut self, p: ProcSample)
        requires
            old(self).wf(),
            old(self)@.stage is Stat,
            old(self)@.pids.len() > 0,
        ensures
            final(self).wf(),
            final(self)@ == old(self)@.admitted(p@),
    {
        let key = p.stat.key();
        self.sample.procs.insert(key, p);
        self.advance();
    }

    /// The finished sample.
    pub fn finish(self, scan_time: Duration) -> (r: Sample)
        requires
            self.wf(),
            self@.ask() is Done,
        ensures
            r.procs.wf(),
            r@ == (SampleView { scan_time, ..self@.sample }),
    {
        let mut sample = self.sample;
        sample.scan_time = scan_time;
        sample
    }
}

// ------------------------------------------------------------------ laws --

/// A process that exits between listing and reading is counted, and nothing
/// else: the scan goes on with the next one.
pub proof fn law_a_vanished_process_is_only_counted(v: ScanView, r: Result<String, ReadError>)
    requires
        v.ask() is Stat,
        is_gone(r),
        v.sample.vanished < u32::MAX,
    ensures
        v.after_stat(r).sample == (SampleView {
            vanished: (v.sample.vanished + 1) as u32,
            ..v.sample
        }),
        v.after_stat(r).sample.vanished == v.sample.vanished + 1,
        v.after_stat(r).pids == v.pids.skip(1),
        v.after_stat(r).stage is Stat,
{
}

/// Counters that could not be read are absent, never zero, and the process is
/// in the sample all the same.
pub proof fn law_unreadable_counters_are_absent(
    v: ScanView,
    io: Result<String, ReadError>,
    sockets: Option<usize>,
)
    requires
        v.ask() is Io,
        io is Err,
    ensures
        ({
            let asked = v.after_io(io);
            let done = if v.with_sockets {
                asked.after_links(sockets)
            } else {
                asked
            };
            &&& done.sample.procs.contains_key(v.stage->Io_0.key())
            &&& done.sample.procs[v.stage->Io_0.key()].io is None
            &&& done.sample.procs[v.stage->Io_0.key()].stat == v.stage->Io_0
            &&& done.pids == v.pids.skip(1)
        }),
{
}

// ---------------------------------------------------------- a whole scan --

/// What reading the files of one process gives.
pub struct Reading {
    pub stat: Result<String, ReadError>,
    pub io: Result<String, ReadError>,
    pub sockets: Option<usize>,
}

impl Reading {
    /// What the stat file says, where it was read and is well formed.
    pub open spec fn found(self) -> Option<PidStatView> {
        match self.stat {
            Ok(s) => pid_stat(s@),
            Err(_) => None,
        }
    }

    /// Whether a file that the scan reads was gone. The I/O counters of a process
    /// that was not found are not read.
    pub open spec fn vanishes(self) -> bool {
        is_gone(self.stat) || (self.found() is Some && is_gone(self.io))
    }

    /// Whether the I/O counters were refused.
    pub open spec fn refused(self) -> bool {
        self.found() is Some && is_denied(self.io)
    }

    /// The process as it enters the sample.
    pub open spec fn process(self, with_sockets: bool) -> ProcSampleView {
        ProcSampleView {
            stat: self.found()->0,
            io: match self.io {
                Ok(s) => Some(pid_io(s@)),
                Err(_) => None,
            },
            sockets: if with_sockets {
                self.sockets
            } else {
                None
            },
        }
    }
}

impl ScanView {
    /// After every question about one process is answered.
    pub open spec fn visited(self, r: Reading) -> ScanView {
        let asked = self.after_stat(r.stat);
        if r.found() is None {
            asked
        } else if self.with_sockets {
            asked.after_io(r.io).after_links(r.sockets)
        } else {
            asked.after_io(r.io)
        }
    }

    /// After every question about the processes in `rs` is answered, in order.
    pub open spec fn scanned(self, rs: Seq<Reading>) -> ScanView
        decreases rs.len(),
    {
        if rs.len() == 0 {
            self
        } else {
            self.scanned(rs.drop_last()).visited(rs.last())
        }
    }
}

/// How many of the readings found a file gone.
pub open spec fn vanished_in(rs: Seq<Reading>) -> nat
    decreases rs.len(),
{
    if rs.len() == 0 {
        0
    } else {
        vanished_in(rs.drop_last()) + if rs.last().vanishes() {
            1nat
        } else {
            0
        }
    }
}

/// How many of the readings were refused the I/O counters.
pub open spec fn refused_in(rs: Seq<Reading>) -> nat
    decreases rs.len(),
{
    if rs.len() == 0 {
        0
    } else {
        refused_in(rs.drop_last()) + if rs.last().refused() {
            1nat
        } else {
            0
        }
    }
}

/// Whether the reading at `i` is the last that found the process `k`.
pub open spec fn last_found(rs: Seq<Reading>, k: ProcKey, i: int) -> bool {
    &&& 0 <= i < rs.len()
    &&& rs[i].found() is Some
    &&& rs[i].found()->0.key() == k
    &&& forall|j: int|
        i < j < rs.len() ==> !((#[trigger] rs[j]).found() is Some && rs[j].found()->0.key() == k)
}

/// The processes that the readings found, each as it was last found.
pub open spec fn holds_found(
    procs: Map<ProcKey, ProcSampleView>,
    rs: Seq<Reading>,
    with_sockets: bool,
) -> bool {
    forall|k: ProcKey| #[trigger]
        procs.contains_key(k) ==> exists|i: int|
            #[trigger] last_found(rs, k, i) && procs[k] == rs[i].process(with_sockets)
}

/// A whole scan accounts for every PID that was listed: `vanished` is the number
/// of processes of which a file was gone, `io_denied` the number of refusals, and
/// the sample holds exactly the processes whose stat file could be read and is
/// well formed. Nothing else in the sample changes.
pub proof fn law_a_scan_accounts_for_every_pid(v: ScanView, rs: Seq<Reading>)
    requires
        v.stage is Stat,
        v.pids.len() == rs.len(),
        v.sample.vanished == 0,
        v.sample.io_denied == 0,
        v.sample.procs == Map::<ProcKey, ProcSampleView>::empty(),
        forall|i: int| 0 <= i < rs.len() ==> (#[trigger] rs[i]).stat is Ok || is_gone(rs[i].stat),
        vanished_in(rs) <= u32::MAX,
        refused_in(rs) <= u32::MAX,
    ensures
        ({
            let done = v.scanned(rs);
            &&& done.ask() is Done
            &&& done.sample.vanished == vanished_in(rs)
            &&& done.sample.io_denied == refused_in(rs)
            &&& forall|i: int|
                0 <= i < rs.len() && (#[trigger] rs[i]).found() is Some ==> done.sample.procs.contains_key(
                    rs[i].found()->0.key(),
                )
            &&& holds_found(done.sample.procs, rs, v.with_sockets)
            &&& done.sample == (SampleView {
                vanished: done.sample.vanished,
                io_denied: done.sample.io_denied,
                procs: done.sample.procs,
                ..v.sample
            })
        }),
{
    lemma_scan(v, rs);
}

proof fn lemma_visit(v: ScanView, r: Reading)
    requires
        v.stage is Stat,
        v.pids.len() > 0,
        r.stat is Ok || is_gone(r.stat),
        v.sample.vanished < u32::MAX || !r.vanishes(),
        v.sample.io_denied < u32::MAX || !r.refused(),
    ensures
        ({
            let w = v.visited(r);
            &&& w.stage is Stat
            &&& w.with_sockets == v.with_sockets
            &&& w.pids == v.pids.skip(1)
            &&& w.sample.vanished == v.sample.vanished + if r.vanishes() {
                1int
            } else {
                0int
            }
            &&& w.sample.io_denied == v.sample.io_denied + if r.refused() {
                1int
            } else {
                0int
            }
            &&& w.sample.procs == if r.found() is Some {
                v.sample.procs.insert(r.found()->0.key(), r.process(v.with_sockets))
            } else {
                v.sample.procs
            }
            &&& w.sample == (SampleView {
                vanished: w.sample.vanished,
                io_denied: w.sample.io_denied,
                procs: w.sample.procs,
                ..v.sample
            })
        }),
{
}

#[verifier::rlimit(40)]
proof fn lemma_scan(v: ScanView, rs: Seq<Reading>)
    requires
        v.stage is Stat,
        v.pids.len() >= rs.len(),
        v.sample.vanished == 0,
        v.sample.io_denied == 0,
        v.sample.procs == Map::<ProcKey, ProcSampleView>::empty(),
        forall|i: int| 0 <= i < rs.len() ==> (#[trigger] rs[i]).stat is Ok || is_gone(rs[i].stat),
        vanished_in(rs) <= u32::MAX,
        refused_in(rs) <= u32::MAX,
    ensures
        ({
            let done = v.scanned(rs);
            &&& done.stage is Stat
            &&& done.with_sockets == v.with_sockets
            &&& done.pids == v.pids.skip(rs.len() as int)
            &&& done.sample.vanished == vanished_in(rs)
            &&& done.sample.io_denied == refused_in(rs)
            &&& forall|i: int|
                0 <= i < rs.len() && (#[trigger] rs[i]).found() is Some ==> done.sample.procs.contains_key(
                    rs[i].found()->0.key(),
                )
            &&& holds_found(done.sample.procs, rs, v.with_sockets)
            &&& done.sample == (SampleView {
                vanished: done.sample.vanished,
                io_denied: done.sample.io_denied,
                procs: done.sample.procs,
                ..v.sample
            })
        }),
    decreases rs.len(),
{
    if rs.len() == 0 {
        assert(v.pids.skip(0) =~= v.pids);
    } else {
        let less = rs.drop_last();
        let n = rs.len() - 1;
        let r = rs.last();
        assert(rs[n] == r);
        assert forall|i: int| 0 <= i < less.len() implies (#[trigger] less[i]).stat is Ok || is_gone(
            less[i].stat,
        ) by {
            assert(less[i] == rs[i]);
        }
        lemma_scan(v, less);
        let w = v.scanned(less);
        let done = v.scanned(rs);
        lemma_visit(w, r);
        assert(v.pids.skip(n).skip(1) =~= v.pids.skip(n + 1));
        assert forall|i: int| 0 <= i < rs.len() && (#[trigger] rs[i]).found() is Some implies done.sample.procs.contains_key(
            rs[i].found()->0.key(),
        ) by {
            if i < n {
                assert(less[i] == rs[i]);
            }
        }
        assert forall|k: ProcKey| #[trigger] done.sample.procs.contains_key(k) implies exists|i: int|
            #[trigger] last_found(rs, k, i) && done.sample.procs[k] == rs[i].process(v.with_sockets) by {
            if r.found() is Some && r.found()->0.key() == k {
                assert(last_found(rs, k, n));
            } else {
                assert(w.sample.procs.contains_key(k));
                let i = choose|i: int|
                    #[trigger] last_found(less, k, i) && w.sample.procs[k] == less[i].process(v.with_sockets);
                assert(less[i] == rs[i]);
                assert forall|j: int| i < j < rs.len() implies !((#[trigger] rs[j]).found() is Some
                    && rs[j].found()->0.key() == k) by {
                    if j < n {
                        assert(less[j] == rs[j]);
                    }
                }
                assert(last_found(rs, k, i));
            }
        }
    }
}

/// What the files of one process leave in a scan.
///
/// A stat file that is well formed puts the process in the sample, under its PID
/// and start, with its I/O counters where they could be read, and with its
/// sockets where they are asked for. A file that is gone, of a process that is
/// gone, counts the process as vanished, and refused counters count as denied. A
/// stat file that makes no sense leaves nothing. Whatever happens the scan goes
/// on with the next process.
pub proof fn law_what_a_process_leaves(v: ScanView, r: Reading)
    requires
        v.stage is Stat,
        v.pids.len() > 0,
        v.sample.vanished < u32::MAX,
        v.sample.io_denied < u32::MAX,
        r.stat matches Err(e) ==> e.kind == ErrorKind::NotFound || e.os_code == Some(3i32),
    ensures
        v.visited(r).pids == v.pids.skip(1),
        v.visited(r).stage is Stat,
        v.visited(r).with_sockets == v.with_sockets,
        match r.stat {
            Err(_) => v.visited(r).sample == (SampleView {
                vanished: (v.sample.vanished + 1) as u32,
                ..v.sample
            }),
            Ok(s) => match pid_stat(s@) {
                None => v.visited(r).sample == v.sample,
                Some(p) => v.visited(r).sample == (SampleView {
                    procs: v.sample.procs.insert(
                        ProcKey { pid: p.pid, starttime: p.starttime },
                        ProcSampleView {
                            stat: p,
                            io: match r.io {
                                Ok(t) => Some(pid_io(t@)),
                                Err(_) => None,
                            },
                            sockets: if v.with_sockets {
                                r.sockets
                            } else {
                                None
                            },
                        },
                    ),
                    vanished: match r.io {
                        Err(e) => if e.kind == ErrorKind::NotFound || e.os_code == Some(3i32) {
                            (v.sample.vanished + 1) as u32
                        } else {
                            v.sample.vanished
                        },
                        Ok(_) => v.sample.vanished,
                    },
                    io_denied: match r.io {
                        Err(e) => if e.kind == ErrorKind::PermissionDenied {
                            (v.sample.io_denied + 1) as u32
                        } else {
                            v.sample.io_denied
                        },
                        Ok(_) => v.sample.io_denied,
                    },
                    ..v.sample
                }),
            },
        },
{
}

/// The questions of a scan come process by process, in the order in which they
/// were listed: the stat file first, then the I/O counters, and then, where they
/// are asked for, the descriptors. When no process is left the scan is done.
pub proof fn law_questions_come_in_order(v: ScanView, s: String, io: Result<String, ReadError>)
    requires
        v.stage is Stat,
    ensures
        v.pids.len() == 0 ==> v.ask() is Done,
        v.pids.len() > 0 ==> v.ask() == Ask::Stat(v.pids[0]),
        v.pids.len() > 0 && pid_stat(s@) is Some ==> v.after_stat(Ok(s)).ask() == Ask::Io(v.pids[0]),
        v.pids.len() > 0 && pid_stat(s@) is Some && v.with_sockets ==> v.after_stat(Ok(s)).after_io(io).ask()
            == Ask::Links(v.pids[0]),
        v.pids.len() > 1 && pid_stat(s@) is Some && !v.with_sockets ==> v.after_stat(Ok(s)).after_io(io).ask()
            == Ask::Stat(v.pids[1]),
        v.pids.len() == 1 && pid_stat(s@) is Some && !v.with_sockets ==> v.after_stat(Ok(s)).after_io(
            io,
        ).ask() is Done,
{
}

} // verus!
