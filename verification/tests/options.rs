//! The command line.

use vitals::cli::{finished, flag, has, read_options, rules_usable};
use vitals::time::Duration;

fn args(v: &[&str]) -> Vec<String> {
    v.iter().map(|s| String::from(*s)).collect()
}

#[test]
fn without_arguments_everything_has_its_default() {
    let o = read_options(&args(&[]));
    assert!(!o.help && !o.json && !o.once && !o.sockets);
    assert_eq!(o.interval, Duration::from_secs(1));
    assert_eq!(o.top, 15);
    assert_eq!(o.root, "/proc");
    assert_eq!(o.run_for, None);
    assert_eq!(o.rules, None);
}

#[test]
fn every_option_is_read() {
    let o = read_options(&args(&[
        "--interval", "250ms", "--top", "3", "--rules", "r.txt", "--sockets", "--once", "--json", "--duration", "2m",
        "--proc-root", "/tmp/p", "-h",
    ]));
    assert!(o.help && o.json && o.once && o.sockets);
    assert_eq!(o.interval, Duration::from_millis(250));
    assert_eq!(o.top, 3);
    assert_eq!(o.root, "/tmp/p");
    assert_eq!(o.run_for, Some(Duration::from_secs(120)));
    assert_eq!(o.rules, Some(String::from("r.txt")));
    assert!(read_options(&args(&["--help"])).help);
}

#[test]
fn what_cannot_be_read_has_its_default() {
    let o = read_options(&args(&["--interval", "soon", "--top", "-1", "--duration", "x", "--rules"]));
    assert_eq!(o.interval, Duration::from_secs(1));
    assert_eq!(o.top, 15);
    assert_eq!(o.run_for, None);
    assert_eq!(o.rules, None);
}

#[test]
fn the_first_of_two_counts_and_takes_whatever_follows() {
    let a = args(&["--top", "--json", "--top", "4"]);
    assert_eq!(flag(&a, "--top"), Some(String::from("--json")));
    assert_eq!(flag(&a, "4"), None);
    assert_eq!(flag(&a, "--once"), None);
    assert!(has(&a, "--json"));
    assert!(!has(&a, "json"));
    assert_eq!(read_options(&a).top, 15);
}

#[test]
fn a_rule_file_with_errors_alone_is_of_no_use() {
    assert!(rules_usable(0, 0));
    assert!(rules_usable(1, 5));
    assert!(!rules_usable(0, 1));
}

#[test]
fn the_program_ends_when_it_is_asked_to() {
    let d = Duration::from_secs(5);
    assert!(finished(true, None, Duration::zero()));
    assert!(!finished(false, None, Duration::from_secs(1_000_000)));
    assert!(!finished(false, Some(d), Duration::from_millis(4_999)));
    assert!(finished(false, Some(d), d));
}
