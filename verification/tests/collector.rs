//! Scans of a fabricated process tree, held in memory.

use std::collections::BTreeMap;
use vitals::sample::{list_pids, read_pid, Ask, Collector, ErrorKind, ProcSample, ReadError, Sample};
use vitals::time::{Duration, Instant};

/// Files by path, and the targets of the links in directories by path.
struct Tree {
    files: BTreeMap<String, String>,
    links: BTreeMap<String, Vec<String>>,
    denied: Vec<String>,
    extra_names: Vec<String>,
}

fn missing() -> ReadError {
    ReadError { kind: ErrorKind::NotFound, os_code: Some(2), message: String::from("No such file") }
}

impl Tree {
    fn read(&self, path: &str) -> Result<String, ReadError> {
        if self.denied.iter().any(|p| p == path) {
            return Err(ReadError {
                kind: ErrorKind::PermissionDenied,
                os_code: Some(13),
                message: String::from("Permission denied"),
            });
        }
        self.files.get(path).cloned().ok_or_else(missing)
    }

    fn names(&self) -> Vec<String> {
        let mut v: Vec<String> = Vec::new();
        for path in self.files.keys() {
            let name = String::from(path.split('/').next().unwrap());
            if !v.contains(&name) {
                v.push(name);
            }
        }
        v.extend(self.extra_names.iter().cloned());
        v
    }

    fn scan(&self, c: &Collector) -> Result<Sample, ReadError> {
        let stat = self.read("stat")?;
        let meminfo = self.read("meminfo")?;
        let net = self.read("net/dev").ok();
        let mut scan = c.begin(Instant { nanos: 5 }, &stat, &meminfo, net.as_deref(), &self.names()).unwrap();
        let mut reads = 0u64;
        loop {
            reads += 1;
            match scan.ask() {
                Ask::Stat(pid) => scan.stat_read(self.read(&format!("{}/stat", pid)))?,
                Ask::Io(pid) => scan.io_read(self.read(&format!("{}/io", pid))),
                Ask::Links(pid) => scan.links_read(self.links.get(&format!("{}/fd", pid)).cloned()),
                Ask::Done => return Ok(scan.finish(Duration::from_micros(reads))),
            }
        }
    }
}

fn write_proc_entry(t: &mut Tree, pid: i32, comm: &str, utime: u64, rss_pages: i64) {
    let start = 100 + pid as u64;
    t.files.insert(
        format!("{}/stat", pid),
        format!(
            "{pid} ({comm}) R 1 {pid} {pid} 0 -1 4194304 0 0 0 0 {utime} 0 0 0 20 0 1 0 {start} 1000 {rss_pages} 18446744073709551615 0 0 0 0 0 0 0 0 0 0 0 0 0 0 0 0 0 0 0 0 0 0 0 0"
        ),
    );
    t.files.insert(
        format!("{}/io", pid),
        String::from("rchar: 100\nwchar: 0\nsyscr: 1\nsyscw: 0\nread_bytes: 0\nwrite_bytes: 0\ncancelled_write_bytes: 0\n"),
    );
}

fn system_files() -> Tree {
    let mut files = BTreeMap::new();
    files.insert(
        String::from("stat"),
        String::from("cpu  100 0 50 800 10 0 0 0 0 0\ncpu0 100 0 50 800 10 0 0 0 0 0\nctxt 1000\nprocs_running 1\nprocs_blocked 0\n"),
    );
    files.insert(
        String::from("meminfo"),
        String::from("MemTotal: 2000 kB\nMemFree: 500 kB\nMemAvailable: 1200 kB\nBuffers: 0 kB\nCached: 0 kB\nSwapTotal: 0 kB\nSwapFree: 0 kB\n"),
    );
    files.insert(
        String::from("net/dev"),
        String::from("Inter-|Receive|Transmit\n face |bytes packets errs drop fifo frame compressed multicast|bytes packets errs drop fifo colls carrier compressed\n  eth0: 1000 10 0 0 0 0 0 0  2000 20 0 0 0 0 0 0\n"),
    );
    Tree {
        files,
        links: BTreeMap::new(),
        denied: Vec::new(),
        extra_names: vec![String::from("self"), String::from("sys")],
    }
}

fn procs(s: &Sample) -> Vec<&ProcSample> {
    (0..s.procs.len()).map(|i| s.procs.at(i).1).collect()
}

#[test]
fn collector_reads_a_fabricated_proc_tree_and_skips_non_pid_entries() {
    let mut t = system_files();
    write_proc_entry(&mut t, 100, "alpha", 500, 20);
    write_proc_entry(&mut t, 200, "beta", 0, 5);

    let s = t.scan(&Collector::new("/proc")).expect("collect should succeed on a well-formed tree");

    assert_eq!(s.procs.len(), 2, "self/ and sys/ must not be mistaken for pids");
    assert_eq!(s.vanished, 0);
    assert_eq!(s.mem.total, 2000 * 1024);
    assert_eq!(s.nets.len(), 1);
    assert_eq!(s.nets[0].name, "eth0");
    let mut names: Vec<&str> = procs(&s).iter().map(|p| p.stat.comm.as_str()).collect();
    names.sort();
    assert_eq!(names, vec!["alpha", "beta"]);
}

#[test]
fn a_process_directory_that_disappears_mid_scan_is_counted_not_fatal() {
    let mut t = system_files();
    write_proc_entry(&mut t, 100, "steady", 10, 5);
    write_proc_entry(&mut t, 999, "ephemeral", 10, 5);
    for pid in 300..320 {
        write_proc_entry(&mut t, pid, "filler", 1, 1);
    }
    // Listed, and gone by the time its file is read.
    t.files.remove("999/stat");

    let s = t.scan(&Collector::new("/proc")).expect("a vanished process must not fail the whole scan");
    assert!(procs(&s).iter().any(|p| p.stat.comm == "steady"));
    assert!(!procs(&s).iter().any(|p| p.stat.comm == "ephemeral"));
    assert_eq!(s.vanished, 1);
    assert_eq!(s.procs.len(), 21);
}

#[test]
fn unreadable_io_file_is_reported_as_denied_not_zero() {
    let mut t = system_files();
    write_proc_entry(&mut t, 100, "locked", 10, 5);
    t.denied.push(String::from("100/io"));

    let s = t.scan(&Collector::new("/proc")).expect("permission errors on io must not fail the scan");
    let p = procs(&s).into_iter().find(|p| p.stat.comm == "locked").unwrap();
    assert!(p.io.is_none());
    assert_eq!(s.io_denied, 1, "a None io must be counted as denied");
    assert_eq!(s.vanished, 0);

    t.denied.clear();
    let s = t.scan(&Collector::new("/proc")).unwrap();
    let p = procs(&s).into_iter().find(|p| p.stat.comm == "locked").unwrap();
    assert_eq!(p.io.unwrap().rchar, 100);
    assert_eq!(s.io_denied, 0);
}

#[test]
fn a_process_that_exits_before_its_counters_are_read_is_counted() {
    let mut t = system_files();
    write_proc_entry(&mut t, 100, "gone", 10, 5);
    t.files.remove("100/io");
    let s = t.scan(&Collector::new("/proc")).unwrap();
    assert_eq!(s.vanished, 1);
    assert_eq!(s.io_denied, 0);
    assert_eq!(s.procs.len(), 1);
    assert!(procs(&s)[0].io.is_none());
}

#[test]
fn a_scan_accounts_for_every_pid() {
    let mut t = system_files();
    for pid in 10..40 {
        write_proc_entry(&mut t, pid, "w", 1, 1);
        match pid % 5 {
            0 => {
                t.files.remove(&format!("{}/stat", pid));
            }
            1 => {
                t.files.remove(&format!("{}/io", pid));
            }
            2 => t.denied.push(format!("{}/io", pid)),
            3 => {
                t.files.insert(format!("{}/stat", pid), String::from("malformed"));
            }
            _ => {}
        }
    }
    let s = t.scan(&Collector::new("/proc")).unwrap();
    assert_eq!(s.vanished, 12);
    assert_eq!(s.io_denied, 6);
    assert_eq!(s.procs.len(), 18);
}

#[test]
fn scan_time_is_measured_and_nonzero_for_a_nonempty_tree() {
    let mut t = system_files();
    for pid in 100..150 {
        write_proc_entry(&mut t, pid, "worker", 1, 1);
    }
    let s = t.scan(&Collector::new("/proc")).unwrap();
    assert_eq!(s.procs.len(), 50);
    assert!(s.scan_time.nanos > 0);
    // Two reads for each process, and the question that ends the scan.
    assert_eq!(s.scan_time, Duration::from_micros(101));
}

#[test]
fn socket_counting_reads_fd_symlinks_when_enabled() {
    let mut t = system_files();
    write_proc_entry(&mut t, 100, "netty", 5, 5);
    write_proc_entry(&mut t, 101, "closed", 5, 5);
    t.links.insert(
        String::from("100/fd"),
        vec![String::from("socket:[555]"), String::from("socket:[556]"), String::from("/dev/null")],
    );

    let mut c = Collector::new("/proc");
    c.with_sockets = true;
    let s = t.scan(&c).unwrap();
    let find = |s: &Sample, name: &str| procs(s).into_iter().find(|p| p.stat.comm == name).unwrap().sockets;
    assert_eq!(find(&s, "netty"), Some(2), "only socket: links should be counted");
    assert_eq!(find(&s, "closed"), None, "descriptors that cannot be listed are not zero");

    let c2 = Collector::new("/proc");
    let s2 = t.scan(&c2).unwrap();
    assert_eq!(find(&s2, "netty"), None, "socket counting must be opt-in given its cost");
}

#[test]
fn a_failure_other_than_gone_aborts_the_scan() {
    let mut t = system_files();
    write_proc_entry(&mut t, 100, "locked", 10, 5);
    t.denied.push(String::from("100/stat"));
    let e = t.scan(&Collector::new("/proc")).unwrap_err();
    assert_eq!(e.kind, ErrorKind::PermissionDenied);
    assert_eq!(e.message, "Permission denied");
}

#[test]
fn a_malformed_stat_file_is_passed_over_and_not_counted() {
    let mut t = system_files();
    write_proc_entry(&mut t, 100, "fine", 10, 5);
    t.files.insert(String::from("50/stat"), String::from("50 (short) R 1"));
    let s = t.scan(&Collector::new("/proc")).unwrap();
    assert_eq!(s.procs.len(), 1);
    assert_eq!(s.vanished, 0);
}

#[test]
fn reads_of_a_dying_process_are_classified() {
    let err = |kind: ErrorKind, os_code: Option<i32>| {
        Err(ReadError { kind, os_code, message: String::from("x") })
    };
    assert_eq!(read_pid(Ok(String::from("text"))).unwrap(), Some(String::from("text")));
    assert_eq!(read_pid(err(ErrorKind::NotFound, None)).unwrap(), None);
    assert_eq!(read_pid(err(ErrorKind::Other, Some(3))).unwrap(), None);
    assert!(read_pid(err(ErrorKind::Other, Some(5))).is_err());
    assert!(read_pid(err(ErrorKind::PermissionDenied, None)).is_err());
}

#[test]
fn only_numeric_names_are_pids() {
    let names: Vec<String> = ["1", "self", "42", "net", "4a", "-7", "", "99999999999"]
        .iter()
        .map(|s| String::from(*s))
        .collect();
    assert_eq!(list_pids(&names), vec![1, 42, -7]);
}

#[test]
fn sizes_beyond_the_word_are_refused_at_the_start() {
    let huge = "MemTotal: 1 kB\nMemFree: 18014398509481983 kB\nCached: 18014398509481983 kB\n";
    let c = Collector::default();
    assert_eq!(c.root(), "/proc");
    assert!(!c.with_sockets);
    assert!(c.begin(Instant { nanos: 0 }, "", huge, None, &Vec::new()).is_none());
    let scan = c.begin(Instant { nanos: 7 }, "", "", None, &Vec::new()).unwrap();
    assert_eq!(scan.ask(), Ask::Done);
    let s = scan.finish(Duration::from_millis(2));
    assert_eq!(s.at, Instant { nanos: 7 });
    assert_eq!(s.procs.len(), 0);
    assert!(s.nets.is_empty());
}
