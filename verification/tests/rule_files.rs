//! Every way in which a line of a rule file can be right or wrong.

use vitals::binary64::Binary64;
use vitals::rules::{parse_rules, Metric, Op, Reason, Target};
use vitals::time::Duration;

fn f(x: Binary64) -> f64 {
    f64::from_bits(x.to_bits())
}

fn reason_of(line: &str) -> String {
    let (rules, errs) = parse_rules(line);
    assert!(rules.is_empty(), "{:?}", line);
    assert_eq!(errs.len(), 1, "{:?}", line);
    errs[0].reason.clone()
}

#[test]
fn each_fault_has_its_reason() {
    for (line, reason) in [
        ("warn x system cpu > 1 for 1s", Reason::NotAlert),
        ("alert x system cpu > 1 for", Reason::TooFew),
        ("alert", Reason::TooFew),
        ("alert x process: cpu > 1 for 1s", Reason::EmptyPattern),
        ("alert x proc:y cpu > 1 for 1s", Reason::BadTarget),
        ("alert x system load > 1 for 1s", Reason::UnknownMetric),
        ("alert x process:y proc_count > 1 for 1s", Reason::SystemWide),
        ("alert x system cpu >= 1 for 1s", Reason::BadOperator),
        ("alert x system cpu > many for 1s", Reason::BadThreshold),
        ("alert x system cpu > 5MB for 1s", Reason::BadThreshold),
        ("alert x system cpu > 1 during 1s", Reason::NoFor),
        ("alert x system cpu > 1 for ever", Reason::BadDuration),
        ("alert x system cpu > 1 for 1s until 0", Reason::Trailing),
        ("alert x system cpu > 1 for 1s clear", Reason::Trailing),
        ("alert x system cpu > 1 for 1s clear 0 0", Reason::Trailing),
        ("alert x system cpu > 1 for 1s clear low low", Reason::Trailing),
        ("alert x system cpu > 1 for 1s clear low", Reason::BadClear),
        ("alert x system cpu > 1 for 1s clear 2", Reason::WrongSide),
        ("alert x system cpu < 2 for 1s clear 1", Reason::WrongSide),
        ("alert x system cpu > nan for 1s clear nan", Reason::WrongSide),
    ] {
        assert_eq!(reason_of(line), reason.text(), "{:?}", line);
    }
}

#[test]
fn the_first_fault_is_the_one_reported() {
    assert_eq!(reason_of("alert x proc:y load ? many when"), Reason::TooFew.text());
    assert_eq!(reason_of("alert x proc:y load ? many when never clear"), Reason::BadTarget.text());
    assert_eq!(reason_of("alert x system load ? many when never"), Reason::UnknownMetric.text());
}

#[test]
fn errors_point_at_their_line_and_say_why() {
    let (rules, errs) = parse_rules("# head\n\nalert a system cpu > 1 for 1s\r\nnonsense \"here\"\t#x\n   \nalert b\n");
    assert_eq!(rules.len(), 1);
    assert_eq!(errs.len(), 2);
    assert_eq!(errs[0].line_no, 4);
    assert_eq!(errs[0].line, "nonsense \"here\"\t#x");
    assert_eq!(
        errs[0].message(),
        "line 4: expected a line beginning with `alert` (in: \"nonsense \\\"here\\\"\\t#x\")"
    );
    assert_eq!(errs[1].line_no, 6);
    assert_eq!(
        errs[1].message_with("<alert b>"),
        "line 6: too few fields; expected: alert <name> <target> <metric> <op> <value> for <dur> (in: <alert b>)"
    );
}

#[test]
fn comments_change_nothing() {
    let line = "alert x process:*  rss < 10K for 250ms clear 1M";
    for tail in ["", "#", " # clear 5", "#alert y"] {
        let text = format!("{}{}", line, tail);
        let (rules, errs) = parse_rules(&text);
        assert!(errs.is_empty());
        assert_eq!(rules.len(), 1);
        let r = &rules[0];
        assert_eq!(r.name, "x");
        assert_eq!(r.target, Target::Process(String::from("*")));
        assert_eq!(r.metric, Metric::Rss);
        assert_eq!(r.op, Op::Lt);
        assert_eq!(f(r.threshold), 10240.0);
        assert_eq!(r.sustain, Duration::from_millis(250));
        assert_eq!(f(r.clear), 1048576.0);
    }
    let (rules, errs) = parse_rules("#alert x\n \u{a0} \n");
    assert!(rules.is_empty() && errs.is_empty());
}

#[test]
fn metrics_answer_to_their_names() {
    for (word, metric) in [
        ("cpu_pct", Metric::CpuPct), ("cpu", Metric::CpuPct), ("mem_pct", Metric::MemPct), ("rss", Metric::Rss),
        ("rss_bytes", Metric::Rss), ("mem", Metric::Rss), ("read_bps", Metric::ReadBps), ("write_bps", Metric::WriteBps),
        ("net_rx_bps", Metric::NetRxBps), ("net_tx_bps", Metric::NetTxBps), ("threads", Metric::Threads),
        ("proc_count", Metric::ProcCount),
    ] {
        let (rules, errs) = parse_rules(&format!("alert n system {} > 5 for 1s", word));
        assert!(errs.is_empty());
        assert_eq!(rules[0].metric, metric);
        let (again, _) = parse_rules(&format!("alert n system {} > 5 for 1s", metric.name()));
        assert_eq!(again[0].metric, metric);
    }
}

#[test]
fn metrics_in_bytes_also_take_bare_numbers() {
    let threshold = |t: &str| f(parse_rules(&format!("alert n system net_rx_bps > {} for 1", t)).0[0].threshold);
    assert_eq!(threshold("1.5K"), 1536.0);
    assert_eq!(threshold("2.7"), 2.0);
    assert_eq!(threshold("-3"), -3.0);
    assert_eq!(f(parse_rules("alert n system cpu > 2.7 for 1").0[0].threshold), 2.7);
}

#[test]
fn a_rule_ends_with_its_clear_value() {
    let (rules, errs) = parse_rules("alert hot system cpu_pct > 80 for 5s clear 60 extra");
    assert!(rules.is_empty());
    assert_eq!(errs.len(), 1);
    assert_eq!(errs[0].line_no, 1);
    assert_eq!(errs[0].reason, Reason::Trailing.text());
    let (rules, errs) = parse_rules("alert hot system cpu_pct > 80 for 5s clear 60 # extra");
    assert!(errs.is_empty());
    assert_eq!(f(rules[0].clear), 60.0);
}

#[test]
fn every_metric_is_read_back_from_its_name() {
    for m in [
        Metric::CpuPct, Metric::MemPct, Metric::Rss, Metric::ReadBps, Metric::WriteBps, Metric::NetRxBps,
        Metric::NetTxBps, Metric::Threads, Metric::ProcCount,
    ] {
        assert_eq!(Metric::parse(m.name()), Some(m));
    }
    assert_eq!(Metric::parse("load"), None);
    assert_eq!(Metric::parse(""), None);
}
