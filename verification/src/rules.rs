//! User-defined alert rules.
//!
//! Rule syntax, one per line:
//!
//! ```text
//!   alert <name> <target> <metric> <op> <value> for <duration> [clear <value>]
//!
//!   alert high_cpu   system         cpu_pct  >  80      for 5s   clear 60
//!   alert cpu_hog    process:*      cpu_pct  >  50      for 3s
//!   alert node_leak  process:node   rss      >  500MB   for 30s  clear 400MB
//! ```
//!
//! Two mechanisms keep this from producing an alert storm. The condition must
//! hold continuously for the duration before the alert fires, which suppresses
//! transients. And the alert fires above the threshold but only clears below
//! the clear value, which keeps a value that oscillates around the threshold
//! from firing and clearing on alternate samples.

use vstd::prelude::*;
use vstd::slice::slice_subrange;

use crate::binary64::{of_int, Binary64};
use crate::decimal::{parse_real, read_real};
use crate::delta::{rate_views, ProcRate, ProcRateView, Snapshot, SnapshotView, SystemRateView};
use crate::numbers::{dec, dec_int, push_dec, push_dec_int};
use crate::table::{lookup, Key, Table};
use crate::text::{
    after_prefix, all_of, chars_of, copy_str, find, first_index, lemma_take_line, lines, same, split_lines,
    split_tokens, starts_with, string_of, tokens, trim, trimmed, views,
};
use crate::time::{Duration, Instant};
use crate::units::{duration, read_duration, read_size, size};

verus! {

// ---------------------------------------------------------------- metrics --

/// What a rule looks at.
#[derive(Debug, Clone, Copy, PartialEq, Eq, Structural)]
pub enum Metric {
    CpuPct,
    MemPct,
    Rss,
    ReadBps,
    WriteBps,
    NetRxBps,
    NetTxBps,
    Threads,
    ProcCount,
}

/// The metric that a word names.
pub open spec fn metric_named(s: Seq<char>) -> Option<Metric> {
    if s == "cpu_pct"@ || s == "cpu"@ {
        Some(Metric::CpuPct)
    } else if s == "mem_pct"@ {
        Some(Metric::MemPct)
    } else if s == "rss"@ || s == "rss_bytes"@ || s == "mem"@ {
        Some(Metric::Rss)
    } else if s == "read_bps"@ {
        Some(Metric::ReadBps)
    } else if s == "write_bps"@ {
        Some(Metric::WriteBps)
    } else if s == "net_rx_bps"@ {
        Some(Metric::NetRxBps)
    } else if s == "net_tx_bps"@ {
        Some(Metric::NetTxBps)
    } else if s == "threads"@ {
        Some(Metric::Threads)
    } else if s == "proc_count"@ {
        Some(Metric::ProcCount)
    } else {
        None
    }
}

impl Metric {
    /// Whether values of the metric are in bytes.
    pub open spec fn in_bytes(self) -> bool {
        self is Rss || self is ReadBps || self is WriteBps || self is NetRxBps || self is NetTxBps
    }

    /// Whether a single process has the metric.
    pub open spec fn per_process(self) -> bool {
        self is CpuPct || self is Rss || self is ReadBps || self is WriteBps || self is Threads
    }

    /// The name of the metric.
    pub open spec fn text(self) -> Seq<char> {
        match self {
            Metric::CpuPct => "cpu_pct"@,
            Metric::MemPct => "mem_pct"@,
            Metric::Rss => "rss"@,
            Metric::ReadBps => "read_bps"@,
            Metric::WriteBps => "write_bps"@,
            Metric::NetRxBps => "net_rx_bps"@,
            Metric::NetTxBps => "net_tx_bps"@,
            Metric::Threads => "threads"@,
            Metric::ProcCount => "proc_count"@,
        }
    }

    /// The metric that a word names.
    pub fn parse(s: &str) -> (r: Option<Metric>)
        ensures
            r == metric_named(s@),
    {
        Metric::read(chars_of(s).as_slice())
    }

    fn read(s: &[char]) -> (r: Option<Metric>)
        ensures
            r == metric_named(s@),
    {
        if same(s, "cpu_pct") || same(s, "cpu") {
            Some(Metric::CpuPct)
        } else if same(s, "mem_pct") {
            Some(Metric::MemPct)
        } else if same(s, "rss") || same(s, "rss_bytes") || same(s, "mem") {
            Some(Metric::Rss)
        } else if same(s, "read_bps") {
            Some(Metric::ReadBps)
        } else if same(s, "write_bps") {
            Some(Metric::WriteBps)
        } else if same(s, "net_rx_bps") {
            Some(Metric::NetRxBps)
        } else if same(s, "net_tx_bps") {
            Some(Metric::NetTxBps)
        } else if same(s, "threads") {
            Some(Metric::Threads)
        } else if same(s, "proc_count") {
            Some(Metric::ProcCount)
        } else {
            None
        }
    }

    /// Metrics in bytes accept suffixes like `500MB`; the rest are plain.
    fn is_bytes(&self) -> (r: bool)
        ensures
            r == self.in_bytes(),
    {
        match self {
            Metric::Rss
            | Metric::ReadBps
            | Metric::WriteBps
            | Metric::NetRxBps
            | Metric::NetTxBps => true,
            _ => false,
        }
    }

    fn applies_to_process(&self) -> (r: bool)
        ensures
            r == self.per_process(),
    {
        match self {
            Metric::CpuPct
            | Metric::Rss
            | Metric::ReadBps
            | Metric::WriteBps
            | Metric::Threads => true,
            _ => false,
        }
    }

    /// The name of the metric.
    pub fn name(&self) -> (r: &'static str)
        ensures
            r@ == self.text(),
    {
        match self {
            Metric::CpuPct => "cpu_pct",
            Metric::MemPct => "mem_pct",
            Metric::Rss => "rss",
            Metric::ReadBps => "read_bps",
            Metric::WriteBps => "write_bps",
            Metric::NetRxBps => "net_rx_bps",
            Metric::NetTxBps => "net_tx_bps",
            Metric::Threads => "threads",
            Metric::ProcCount => "proc_count",
        }
    }
}

// ------------------------------------------------------------------ rules --

/// On which side of the threshold a value breaches it.
#[derive(Debug, Clone, Copy, PartialEq, Eq, Structural)]
pub enum Op {
    Gt,
    Lt,
}

/// What a rule watches.
#[derive(Debug, Clone, PartialEq, Eq)]
pub enum Target {
    System,
    /// Match on the name of a process. `*` matches every process.
    Process(String),
}

/// The contents of a `Target`.
pub enum TargetView {
    System,
    Process(Seq<char>),
}

impl View for Target {
    type V = TargetView;

    open spec fn view(&self) -> TargetView {
        match self {
            Target::System => TargetView::System,
            Target::Process(p) => TargetView::Process(p@),
        }
    }
}

impl TargetView {
    /// Whether a process of this name is watched.
    pub open spec fn watches(self, comm: Seq<char>) -> bool {
        match self {
            TargetView::System => false,
            TargetView::Process(p) => p == "*"@ || p == comm,
        }
    }
}

impl Target {
    /// Whether a process of this name is watched.
    fn matches(&self, comm: &str) -> (r: bool)
        ensures
            r == self@.watches(comm@),
    {
        match self {
            Target::System => false,
            Target::Process(p) => {
                let pattern = chars_of(p.as_str());
                same(pattern.as_slice(), "*") || same(pattern.as_slice(), comm)
            },
        }
    }
}

/// An alert rule.
#[derive(Debug, Clone)]
pub struct Rule {
    pub name: String,
    pub target: Target,
    pub metric: Metric,
    pub op: Op,
    pub threshold: Binary64,
    pub sustain: Duration,
    /// Hysteresis boundary. The threshold itself where none is given.
    pub clear: Binary64,
}

/// The contents of a `Rule`.
pub struct RuleView {
    pub name: Seq<char>,
    pub target: TargetView,
    pub metric: Metric,
    pub op: Op,
    pub threshold: Binary64,
    pub sustain: Duration,
    pub clear: Binary64,
}

impl View for Rule {
    type V = RuleView;

    open spec fn view(&self) -> RuleView {
        RuleView {
            name: self.name@,
            target: self.target@,
            metric: self.metric,
            op: self.op,
            threshold: self.threshold,
            sustain: self.sustain,
            clear: self.clear,
        }
    }
}

/// The contents of a list of rules.
pub open spec fn rule_views(v: Seq<Rule>) -> Seq<RuleView> {
    v.map_values(|r: Rule| r@)
}

// ---------------------------------------------------------------- parsing --

/// Why a line is no rule.
#[derive(Debug, Clone, Copy, PartialEq, Eq, Structural)]
pub enum Reason {
    NotAlert,
    TooFew,
    EmptyPattern,
    BadTarget,
    UnknownMetric,
    SystemWide,
    BadOperator,
    BadThreshold,
    NoFor,
    BadDuration,
    Trailing,
    BadClear,
    WrongSide,
}

impl Reason {
    /// The reason in words.
    pub open spec fn words(self) -> Seq<char> {
        match self {
            Reason::NotAlert => "expected a line beginning with `alert`"@,
            Reason::TooFew =>
                "too few fields; expected: alert <name> <target> <metric> <op> <value> for <dur>"@,
            Reason::EmptyPattern => "empty process pattern"@,
            Reason::BadTarget => "target must be `system` or `process:<comm>` (or `process:*`)"@,
            Reason::UnknownMetric => "unknown metric"@,
            Reason::SystemWide => "that metric is system-wide and cannot be scoped to a process"@,
            Reason::BadOperator => "operator must be > or <"@,
            Reason::BadThreshold => "could not parse threshold value"@,
            Reason::NoFor => "expected keyword `for` before the duration"@,
            Reason::BadDuration => "could not parse duration"@,
            Reason::Trailing => "trailing tokens; expected `clear <value>`"@,
            Reason::BadClear => "could not parse clear value"@,
            Reason::WrongSide =>
                "clear value is on the wrong side of the threshold; the alert could never clear"@,
        }
    }

    /// The reason in words.
    pub fn text(&self) -> (r: &'static str)
        ensures
            r@ == self.words(),
    {
        match self {
            Reason::NotAlert => "expected a line beginning with `alert`",
            Reason::TooFew =>
                "too few fields; expected: alert <name> <target> <metric> <op> <value> for <dur>",
            Reason::EmptyPattern => "empty process pattern",
            Reason::BadTarget => "target must be `system` or `process:<comm>` (or `process:*`)",
            Reason::UnknownMetric => "unknown metric",
            Reason::SystemWide => "that metric is system-wide and cannot be scoped to a process",
            Reason::BadOperator => "operator must be > or <",
            Reason::BadThreshold => "could not parse threshold value",
            Reason::NoFor => "expected keyword `for` before the duration",
            Reason::BadDuration => "could not parse duration",
            Reason::Trailing => "trailing tokens; expected `clear <value>`",
            Reason::BadClear => "could not parse clear value",
            Reason::WrongSide =>
                "clear value is on the wrong side of the threshold; the alert could never clear",
        }
    }
}

/// A line that is no rule.
#[derive(Debug)]
pub struct ParseError {
    /// The number of the line, counted from one.
    pub line_no: usize,
    pub line: String,
    pub reason: String,
}

/// The contents of a `ParseError`.
pub struct ParseErrorView {
    pub line_no: nat,
    pub line: Seq<char>,
    pub reason: Seq<char>,
}

impl View for ParseError {
    type V = ParseErrorView;

    open spec fn view(&self) -> ParseErrorView {
        ParseErrorView { line_no: self.line_no as nat, line: self.line@, reason: self.reason@ }
    }
}

/// The contents of a list of errors.
pub open spec fn error_views(v: Seq<ParseError>) -> Seq<ParseErrorView> {
    v.map_values(|e: ParseError| e@)
}

/// What `format!` makes of a string with `{:?}`.
pub uninterp spec fn debug_text(s: Seq<char>) -> Seq<char>;

/// The string in quotes, with what cannot be shown escaped: `format!` with
/// `{:?}`. The contract claims only that the outcome depends on nothing but the
/// string.
#[verifier::external_body]
fn quoted(s: &str) -> (r: String)
    ensures
        r@ == debug_text(s@),
{
    format!("{:?}", s)
}

/// The error in words, given the line in quotes.
pub open spec fn error_text(e: ParseErrorView, quoted_line: Seq<char>) -> Seq<char> {
    "line "@ + dec(e.line_no) + ": "@ + e.reason + " (in: "@ + quoted_line + ")"@
}

impl ParseError {
    /// The error in words, given the line in quotes.
    pub fn message_with(&self, quoted_line: &str) -> (r: String)
        ensures
            r@ == error_text(self@, quoted_line@),
    {
        let mut out = copy_str("line ");
        push_dec(&mut out, self.line_no as u128);
        out.append(": ");
        out.append(self.reason.as_str());
        out.append(" (in: ");
        out.append(quoted_line);
        out.append(")");
        out
    }

    /// The error in words.
    pub fn message(&self) -> (r: String)
        ensures
            r@ == error_text(self@, debug_text(self@.line)),
    {
        let line = quoted(self.line.as_str());
        self.message_with(line.as_str())
    }
}

/// The number that a threshold stands for. Metrics in bytes take both `500MB`
/// and a bare number.
pub open spec fn value(tok: Seq<char>, metric: Metric) -> Option<Binary64> {
    if metric.in_bytes() {
        match size(tok) {
            Some(n) => Some(of_int(n as int)),
            None => parse_real(tok),
        }
    } else {
        parse_real(tok)
    }
}

fn parse_value(tok: &[char], metric: Metric) -> (r: Option<Binary64>)
    ensures
        r == value(tok@, metric),
{
    if metric.is_bytes() {
        match read_size(tok) {
            Some(n) => Some(Binary64::from_u64(n)),
            None => read_real(tok),
        }
    } else {
        read_real(tok)
    }
}

/// The target that a word names.
pub open spec fn target_named(tok: Seq<char>) -> Result<TargetView, Reason> {
    let p = tok.skip("process:"@.len() as int);
    if tok == "system"@ {
        Ok(TargetView::System)
    } else if starts_with(tok, "process:"@) {
        if p.len() == 0 {
            Err(Reason::EmptyPattern)
        } else {
            Ok(TargetView::Process(p))
        }
    } else {
        Err(Reason::BadTarget)
    }
}

fn read_target(tok: &[char]) -> (r: Result<Target, Reason>)
    ensures
        match r {
            Ok(t) => target_named(tok@) == Ok::<TargetView, Reason>(t@),
            Err(e) => target_named(tok@) == Err::<TargetView, Reason>(e),
        },
{
    if same(tok, "system") {
        return Ok(Target::System);
    }
    match after_prefix(tok, "process:") {
        Some(p) => if p.len() == 0 {
            Err(Reason::EmptyPattern)
        } else {
            Ok(Target::Process(string_of(p)))
        },
        None => Err(Reason::BadTarget),
    }
}

/// The operator that a word names.
pub open spec fn op_named(tok: Seq<char>) -> Option<Op> {
    if tok == ">"@ {
        Some(Op::Gt)
    } else if tok == "<"@ {
        Some(Op::Lt)
    } else {
        None
    }
}

/// Whether a clear value is on the side of the threshold on which it can be
/// crossed back.
pub open spec fn sane(op: Op, clear: Binary64, threshold: Binary64) -> bool {
    match op {
        Op::Gt => clear.le(threshold),
        Op::Lt => threshold.le(clear),
    }
}

/// The clear value of a rule: what follows the duration, or else the threshold.
pub open spec fn clear_value(
    t: Seq<Seq<char>>,
    metric: Metric,
    op: Op,
    threshold: Binary64,
) -> Result<Binary64, Reason> {
    if t.len() <= 8 {
        Ok(threshold)
    } else if t[8] != "clear"@ || t.len() != 10 {
        Err(Reason::Trailing)
    } else {
        match value(t[9], metric) {
            Some(clear) => if sane(op, clear, threshold) {
                Ok(clear)
            } else {
                Err(Reason::WrongSide)
            },
            None => Err(Reason::BadClear),
        }
    }
}

/// The threshold, duration and clear value of a rule, from its words.
pub open spec fn rule_limits(t: Seq<Seq<char>>, target: TargetView, metric: Metric, op: Op) -> Result<
    RuleView,
    Reason,
> {
    match value(t[5], metric) {
        None => Err(Reason::BadThreshold),
        Some(threshold) => if t[6] != "for"@ {
            Err(Reason::NoFor)
        } else {
            match duration(t[7]) {
                None => Err(Reason::BadDuration),
                Some(sustain) => match clear_value(t, metric, op, threshold) {
                    Err(reason) => Err(reason),
                    Ok(clear) => Ok(
                        RuleView { name: t[1], target, metric, op, threshold, sustain, clear },
                    ),
                },
            }
        },
    }
}

/// The rule that the words of a line make, or the first reason why they make
/// none.
pub open spec fn rule_of(t: Seq<Seq<char>>) -> Result<RuleView, Reason> {
    if t.len() == 0 || t[0] != "alert"@ {
        Err(Reason::NotAlert)
    } else if t.len() < 8 {
        Err(Reason::TooFew)
    } else {
        match target_named(t[2]) {
            Err(reason) => Err(reason),
            Ok(target) => match metric_named(t[3]) {
                None => Err(Reason::UnknownMetric),
                Some(metric) => if target is Process && !metric.per_process() {
                    Err(Reason::SystemWide)
                } else {
                    match op_named(t[4]) {
                        None => Err(Reason::BadOperator),
                        Some(op) => rule_limits(t, target, metric, op),
                    }
                },
            },
        }
    }
}

fn read_clear(t: &Vec<&[char]>, metric: Metric, op: Op, threshold: Binary64) -> (r: Result<
    Binary64,
    Reason,
>)
    ensures
        r == clear_value(views(t@), metric, op, threshold),
{
    assert(views(t@).len() == t@.len());
    assert(forall|i: int| 0 <= i < t.len() ==> (#[trigger] t@[i])@ == views(t@)[i]);
    if t.len() <= 8 {
        return Ok(threshold);
    }
    if !same(t[8], "clear") || t.len() != 10 {
        return Err(Reason::Trailing);
    }
    match parse_value(t[9], metric) {
        Some(clear) => {
            // A deadband on the wrong side never clears: the alert would latch.
            let fine = match op {
                Op::Gt => clear.at_most(&threshold),
                Op::Lt => threshold.at_most(&clear),
            };
            if fine {
                Ok(clear)
            } else {
                Err(Reason::WrongSide)
            }
        },
        None => Err(Reason::BadClear),
    }
}

fn read_rule(t: &Vec<&[char]>) -> (r: Result<Rule, Reason>)
    ensures
        match r {
            Ok(rule) => rule_of(views(t@)) == Ok::<RuleView, Reason>(rule@),
            Err(e) => rule_of(views(t@)) == Err::<RuleView, Reason>(e),
        },
{
    assert(views(t@).len() == t@.len());
    assert(forall|i: int| 0 <= i < t.len() ==> (#[trigger] t@[i])@ == views(t@)[i]);
    if t.len() == 0 || !same(t[0], "alert") {
        return Err(Reason::NotAlert);
    }
    if t.len() < 8 {
        return Err(Reason::TooFew);
    }
    let target = match read_target(t[2]) {
        Ok(target) => target,
        Err(reason) => return Err(reason),
    };
    let metric = match Metric::read(t[3]) {
        Some(metric) => metric,
        None => return Err(Reason::UnknownMetric),
    };
    let of_process = match &target {
        Target::System => false,
        Target::Process(_) => true,
    };
    if of_process && !metric.applies_to_process() {
        return Err(Reason::SystemWide);
    }
    let op = if same(t[4], ">") {
        Op::Gt
    } else if same(t[4], "<") {
        Op::Lt
    } else {
        return Err(Reason::BadOperator);
    };
    let threshold = match parse_value(t[5], metric) {
        Some(v) => v,
        None => return Err(Reason::BadThreshold),
    };
    if !same(t[6], "for") {
        return Err(Reason::NoFor);
    }
    let sustain = match read_duration(t[7]) {
        Some(d) => d,
        None => return Err(Reason::BadDuration),
    };
    let clear = match read_clear(t, metric, op, threshold) {
        Ok(clear) => clear,
        Err(reason) => return Err(reason),
    };
    Ok(Rule { name: string_of(t[1]), target, metric, op, threshold, sustain, clear })
}

/// A line without its comment and the whitespace around it.
pub open spec fn content(raw: Seq<char>) -> Seq<char> {
    trim(raw.take(first_index(raw, '#') as int))
}

/// What a line makes: nothing where it is blank, a rule, or a reason.
pub open spec fn line_outcome(raw: Seq<char>) -> Option<Result<RuleView, Reason>> {
    if content(raw).len() == 0 {
        None
    } else {
        Some(rule_of(tokens(content(raw))))
    }
}

/// Reads a line as a rule.
pub open spec fn rule_line() -> spec_fn(Seq<char>) -> Option<RuleView> {
    |l: Seq<char>|
        match line_outcome(l) {
            Some(Ok(rule)) => Some(rule),
            _ => None,
        }
}

/// The rules in the lines, in order.
pub open spec fn rules_in(ls: Seq<Seq<char>>) -> Seq<RuleView> {
    all_of(ls, rule_line())
}

/// The errors in the lines, in order.
pub open spec fn errors_in(ls: Seq<Seq<char>>) -> Seq<ParseErrorView>
    decreases ls.len(),
{
    if ls.len() == 0 {
        seq![]
    } else {
        match line_outcome(ls.last()) {
            Some(Err(reason)) => errors_in(ls.drop_last()).push(
                ParseErrorView { line_no: ls.len(), line: ls.last(), reason: reason.words() },
            ),
            _ => errors_in(ls.drop_last()),
        }
    }
}

/// Parses rules, one per line. A line that is no rule gives an error and does
/// not keep the others from being read.
pub fn parse_rules(text: &str) -> (r: (Vec<Rule>, Vec<ParseError>))
    ensures
        rule_views(r.0@) == rules_in(lines(text@)),
        error_views(r.1@) == errors_in(lines(text@)),
{
    let chars = chars_of(text);
    let ls = split_lines(chars.as_slice());
    let ghost all = lines(text@);
    let mut rules: Vec<Rule> = Vec::new();
    let mut errs: Vec<ParseError> = Vec::new();
    proof {
        assert(rule_views(rules@) =~= rules_in(all.take(0)));
        assert(error_views(errs@) =~= errors_in(all.take(0)));
    }
    let mut i: usize = 0;
    while i < ls.len()
        invariant
            i <= ls.len(),
            all == views(ls@),
            rule_views(rules@) == rules_in(all.take(i as int)),
            error_views(errs@) == errors_in(all.take(i as int)),
        decreases ls.len() - i,
    {
        let raw = ls[i];
        let ghost rules_before = rules@;
        let ghost errs_before = errs@;
        proof {
            assert(all[i as int] == raw@);
            lemma_take_line(all, i as int);
        }
        let end = match find(raw, '#') {
            Some(at) => at,
            None => raw.len(),
        };
        let uncommented = slice_subrange(raw, 0, end);
        assert(uncommented@ =~= raw@.take(first_index(raw@, '#') as int));
        let line = trimmed(uncommented);
        if line.len() > 0 {
            let t = split_tokens(line);
            match read_rule(&t) {
                Ok(rule) => {
                    rules.push(rule);
                    assert(rule_views(rules@) =~= rule_views(rules_before).push(rule@));
                },
                Err(reason) => {
                    let e = ParseError {
                        line_no: i + 1,
                        line: string_of(raw),
                        reason: copy_str(reason.text()),
                    };
                    errs.push(e);
                    assert(error_views(errs@) =~= error_views(errs_before).push(e@));
                },
            }
        }
        i += 1;
    }
    assert(all.take(i as int) =~= all);
    (rules, errs)
}

// ----------------------------------------------------------------- engine --

/// One thing that one rule watches.
#[derive(Debug, Clone, Copy, PartialEq, Eq, Hash)]
pub struct SubjectId {
    /// The position of the rule.
    pub rule: usize,
    /// None for system-wide rules; (pid, starttime) for those of processes.
    pub proc_key: Option<(i32, u64)>,
}

impl Key for SubjectId {
    open spec fn precedes(self, other: SubjectId) -> bool {
        self.rule < other.rule || (self.rule == other.rule && match (self.proc_key, other.proc_key) {
            (Some(a), Some(b)) => a.0 < b.0 || (a.0 == b.0 && a.1 < b.1),
            (None, Some(_)) => true,
            _ => false,
        })
    }

    proof fn in_a_row(a: SubjectId, b: SubjectId, c: SubjectId) {
    }

    proof fn one_way(a: SubjectId, b: SubjectId) {
    }

    fn before(&self, other: &SubjectId) -> bool {
        self.rule < other.rule || (self.rule == other.rule && match (self.proc_key, other.proc_key) {
            (Some(a), Some(b)) => a.0 < b.0 || (a.0 == b.0 && a.1 < b.1),
            (None, Some(_)) => true,
            _ => false,
        })
    }
}

/// How far an alert is.
#[derive(Debug, Clone, Copy, PartialEq, Eq, Structural)]
pub enum Phase {
    /// The condition holds, and not yet for long enough.
    Pending,
    /// The alert is active.
    Firing,
}

#[derive(Debug, Clone)]
struct State {
    phase: Phase,
    since: Instant,
    /// Marks subjects observed this tick, so vanished ones can be reaped.
    seen: u64,
    label: String,
}

/// The state of one subject.
pub struct StateView {
    pub phase: Phase,
    /// When the phase began.
    pub since: Instant,
    /// The evaluation in which the subject was last observed.
    pub seen: u64,
    pub label: Seq<char>,
}

impl View for State {
    type V = StateView;

    closed spec fn view(&self) -> StateView {
        StateView { phase: self.phase, since: self.since, seen: self.seen, label: self.label@ }
    }
}

/// What happened to an alert.
#[derive(Debug, Clone, Copy, PartialEq, Eq, Structural)]
pub enum EventKind {
    Fired,
    Cleared,
    /// The process being watched exited, or took a name that is not watched,
    /// while the alert was active.
    ClearedGone,
}

/// Something that happened to an alert.
#[derive(Debug, Clone)]
pub struct Event {
    pub kind: EventKind,
    pub rule_name: String,
    pub subject: String,
    pub metric: Metric,
    pub value: Binary64,
    pub threshold: Binary64,
    pub held_for: Duration,
}

/// The contents of an `Event`.
pub struct EventView {
    pub kind: EventKind,
    pub rule_name: Seq<char>,
    pub subject: Seq<char>,
    pub metric: Metric,
    pub value: Binary64,
    pub threshold: Binary64,
    pub held_for: Duration,
}

impl View for Event {
    type V = EventView;

    open spec fn view(&self) -> EventView {
        EventView {
            kind: self.kind,
            rule_name: self.rule_name@,
            subject: self.subject@,
            metric: self.metric,
            value: self.value,
            threshold: self.threshold,
            held_for: self.held_for,
        }
    }
}

/// The contents of a list of events.
pub open spec fn event_views(v: Seq<Event>) -> Seq<EventView> {
    v.map_values(|e: Event| e@)
}

impl RuleView {
    /// Whether the value is beyond the threshold.
    pub open spec fn breached_by(self, value: Binary64) -> bool {
        match self.op {
            Op::Gt => self.threshold.lt(value),
            Op::Lt => value.lt(self.threshold),
        }
    }

    /// Whether the value has not come back past the clear value. While firing an
    /// alert stays so until the value is below this one (above it, for `<`), not
    /// merely back at it or past the threshold.
    pub open spec fn held_by(self, value: Binary64) -> bool {
        match self.op {
            Op::Gt => !value.lt(self.clear),
            Op::Lt => !self.clear.lt(value),
        }
    }
}

/// An event of `rule`.
pub open spec fn event(
    kind: EventKind,
    rule: RuleView,
    subject: Seq<char>,
    value: Binary64,
    threshold: Binary64,
    held_for: Duration,
) -> EventView {
    EventView { kind, rule_name: rule.name, subject, metric: rule.metric, value, threshold, held_for }
}

/// What becomes of one subject when its value is observed.
///
/// ```text
///   none --breach--> Pending --held for the duration--> Firing
///    ^                  |                                  |
///    |              no breach                       past the clear value
///    +------------------+----------------------------------+
/// ```
pub open spec fn advance(
    st: Option<StateView>,
    rule: RuleView,
    label: Seq<char>,
    value: Binary64,
    now: Instant,
    tick: u64,
) -> (Option<StateView>, Option<EventView>) {
    let firing = StateView { phase: Phase::Firing, since: now, seen: tick, label };
    match st {
        None => if !rule.breached_by(value) {
            (None, None)
        } else if rule.sustain.nanos == 0 {
            (
                Some(firing),
                Some(
                    event(
                        EventKind::Fired,
                        rule,
                        label,
                        value,
                        rule.threshold,
                        Duration { nanos: 0 },
                    ),
                ),
            )
        } else {
            (Some(StateView { phase: Phase::Pending, since: now, seen: tick, label }), None)
        },
        Some(s) => {
            let held = now.since(s.since);
            let same_phase = StateView { seen: tick, label, ..s };
            match s.phase {
                Phase::Pending => if !rule.breached_by(value) {
                    (None, None)
                } else if held.nanos >= rule.sustain.nanos {
                    (
                        Some(firing),
                        Some(event(EventKind::Fired, rule, label, value, rule.threshold, held)),
                    )
                } else {
                    (Some(same_phase), None)
                },
                Phase::Firing => if !rule.held_by(value) {
                    (None, Some(event(EventKind::Cleared, rule, label, value, rule.clear, held)))
                } else {
                    (Some(same_phase), None)
                },
            }
        },
    }
}

/// The states with that of `id` replaced.
pub open spec fn with_state(
    m: Map<SubjectId, StateView>,
    id: SubjectId,
    st: Option<StateView>,
) -> Map<SubjectId, StateView> {
    match st {
        Some(s) => m.insert(id, s),
        None => m.remove(id),
    }
}

/// The events with one more, if there is one.
pub open spec fn noted(events: Seq<EventView>, e: Option<EventView>) -> Seq<EventView> {
    match e {
        Some(e) => events.push(e),
        None => events,
    }
}

/// A subject as it was observed.
pub struct Observed {
    pub id: SubjectId,
    pub label: Seq<char>,
    pub value: Binary64,
}

/// The value of the whole system that a metric looks at, if it looks at one.
pub open spec fn system_metric(metric: Metric, s: SystemRateView) -> Option<Binary64> {
    match metric {
        Metric::CpuPct => Some(s.cpu_pct),
        Metric::MemPct => Some(s.mem.used_percent()),
        Metric::NetRxBps => Some(s.net_rx_bps),
        Metric::NetTxBps => Some(s.net_tx_bps),
        Metric::ProcCount => Some(of_int(s.proc_count as int)),
        _ => None,
    }
}

/// The value of one process that a metric looks at, if it looks at one and it
/// could be read.
pub open spec fn process_metric(metric: Metric, p: ProcRateView) -> Option<Binary64> {
    match metric {
        Metric::CpuPct => Some(p.cpu_pct),
        Metric::Rss => Some(of_int(p.rss_bytes as int)),
        Metric::ReadBps => p.read_bps,
        Metric::WriteBps => p.write_bps,
        Metric::Threads => Some(of_int(p.threads as int)),
        _ => None,
    }
}

/// The value that a rule observes of a process: none of one that it does not
/// watch, nor of a brand new one, which has no meaningful rate yet.
pub open spec fn process_value(rule: RuleView, p: ProcRateView) -> Option<Binary64> {
    if !rule.target.watches(p.comm) || p.is_new {
        None
    } else {
        process_metric(rule.metric, p)
    }
}

/// The subject that a process is to the rule at position `ri`.
pub open spec fn process_id(ri: int, p: ProcRateView) -> SubjectId {
    SubjectId { rule: ri as usize, proc_key: Some((p.key.pid, p.key.starttime)) }
}

/// The name under which a process is reported.
pub open spec fn process_label(p: ProcRateView) -> Seq<char> {
    p.comm + " (pid "@ + dec_int(p.pid as int) + ")"@
}

/// What the rule at position `ri` observes of the processes, in order.
pub open spec fn observed_processes(ri: int, rule: RuleView, procs: Seq<ProcRateView>) -> Seq<Observed>
    decreases procs.len(),
{
    if procs.len() == 0 {
        seq![]
    } else {
        let before = observed_processes(ri, rule, procs.drop_last());
        let p = procs.last();
        match process_value(rule, p) {
            Some(value) => before.push(
                Observed { id: process_id(ri, p), label: process_label(p), value },
            ),
            None => before,
        }
    }
}

/// What the rule at position `ri` observes.
pub open spec fn observed_by(ri: int, rule: RuleView, snap: SnapshotView) -> Seq<Observed> {
    match rule.target {
        TargetView::System => match system_metric(rule.metric, snap.system) {
            Some(value) => seq![
                Observed {
                    id: SubjectId { rule: ri as usize, proc_key: None },
                    label: "system"@,
                    value,
                },
            ],
            None => seq![],
        },
        TargetView::Process(_) => observed_processes(ri, rule, snap.procs),
    }
}

/// What the rules observe, in order.
pub open spec fn observed(rules: Seq<RuleView>, snap: SnapshotView) -> Seq<Observed>
    decreases rules.len(),
{
    if rules.len() == 0 {
        seq![]
    } else {
        observed(rules.drop_last(), snap) + observed_by(rules.len() - 1, rules.last(), snap)
    }
}

/// The states after everything in `obs` was observed in order, and the events.
pub open spec fn run(
    rules: Seq<RuleView>,
    states: Map<SubjectId, StateView>,
    obs: Seq<Observed>,
    now: Instant,
    tick: u64,
) -> (Map<SubjectId, StateView>, Seq<EventView>)
    decreases obs.len(),
{
    if obs.len() == 0 {
        (states, seq![])
    } else {
        let (m, events) = run(rules, states, obs.drop_last(), now, tick);
        let o = obs.last();
        let (st, e) = advance(lookup(m, o.id), rules[o.id.rule as int], o.label, o.value, now, tick);
        (with_state(m, o.id, st), noted(events, e))
    }
}

/// Whether the process that `id` stands for is among `procs` and `rule` watches
/// it: it has a name that the rule is about and was there before.
pub open spec fn watched(rule: RuleView, procs: Seq<ProcRateView>, id: SubjectId) -> bool {
    exists|i: int|
        0 <= i < procs.len() && id.proc_key == Some(
            ((#[trigger] procs[i]).key.pid, procs[i].key.starttime),
        ) && rule.target.watches(procs[i].comm) && !procs[i].is_new
}

/// Whether a subject keeps its state after evaluation `tick`. One that was
/// observed does. One that was not, because its value could not be read, keeps
/// an active alert as long as its process is there and watched; a condition that
/// was still to be held is not known to hold any more.
pub open spec fn stays(
    m: Map<SubjectId, StateView>,
    tick: u64,
    rules: Seq<RuleView>,
    procs: Seq<ProcRateView>,
    id: SubjectId,
) -> bool {
    m.contains_key(id) && (m[id].seen == tick || (m[id].phase == Phase::Firing && watched(
        rules[id.rule as int],
        procs,
        id,
    )))
}

/// The states that are kept after evaluation `tick`.
pub open spec fn present(
    m: Map<SubjectId, StateView>,
    tick: u64,
    rules: Seq<RuleView>,
    procs: Seq<ProcRateView>,
) -> Map<SubjectId, StateView> {
    Map::new(|id: SubjectId| stays(m, tick, rules, procs, id), |id: SubjectId| m[id])
}

/// Whether an alert is active for a subject that is gone: its process has
/// exited, or is no longer one that the rule watches.
pub open spec fn is_left(
    m: Map<SubjectId, StateView>,
    tick: u64,
    rules: Seq<RuleView>,
    procs: Seq<ProcRateView>,
    id: SubjectId,
) -> bool {
    m.contains_key(id) && m[id].seen != tick && m[id].phase == Phase::Firing && !watched(
        rules[id.rule as int],
        procs,
        id,
    )
}

/// The event of an alert that clears because its subject is gone.
pub open spec fn gone_event(
    rules: Seq<RuleView>,
    m: Map<SubjectId, StateView>,
    id: SubjectId,
    now: Instant,
) -> EventView {
    let rule = rules[id.rule as int];
    event(
        EventKind::ClearedGone,
        rule,
        m[id].label,
        of_int(0),
        rule.threshold,
        now.since(m[id].since),
    )
}

/// Whether `events` holds the event of each alert whose subject is gone, once,
/// in the order of `ids`.
pub open spec fn reports_gone(
    ids: Seq<SubjectId>,
    events: Seq<EventView>,
    rules: Seq<RuleView>,
    m: Map<SubjectId, StateView>,
    procs: Seq<ProcRateView>,
    now: Instant,
    tick: u64,
) -> bool {
    &&& ids.no_duplicates()
    &&& forall|id: SubjectId| #[trigger] ids.contains(id) <==> is_left(m, tick, rules, procs, id)
    &&& events.len() == ids.len()
    &&& forall|i: int|
        0 <= i < ids.len() ==> #[trigger] events[i] == gone_event(rules, m, ids[i], now)
}

/// The alert rules and the state of everything they watch.
pub struct Engine {
    pub rules: Vec<Rule>,
    states: Table<SubjectId, State>,
    tick: u64,
}

/// The contents of an `Engine`.
pub struct EngineView {
    pub rules: Seq<RuleView>,
    /// Pending and firing subjects; one that is neither has no state.
    pub states: Map<SubjectId, StateView>,
    /// How many evaluations there were.
    pub tick: u64,
}

impl View for Engine {
    type V = EngineView;

    closed spec fn view(&self) -> EngineView {
        EngineView { rules: rule_views(self.rules@), states: self.states@, tick: self.tick }
    }
}

impl EngineView {
    /// Whether the alert of a subject is active.
    pub open spec fn fires(self, id: SubjectId) -> bool {
        self.states.contains_key(id) && self.states[id].phase == Phase::Firing
    }

    /// The subjects whose alerts are active.
    pub open spec fn firing(self) -> Set<SubjectId> {
        Set::new(|id: SubjectId| self.fires(id))
    }

    /// The engine after an evaluation.
    pub open spec fn evaluated(self, snap: SnapshotView, now: Instant) -> EngineView {
        let tick = (self.tick + 1) as u64;
        let m = run(self.rules, self.states, observed(self.rules, snap), now, tick).0;
        EngineView { states: present(m, tick, self.rules, snap.procs), tick, ..self }
    }

    /// Whether `events` are those of an evaluation: first what the rules
    /// observed, in order, and then the alerts whose subjects are gone, in some
    /// order.
    pub open spec fn reports(self, snap: SnapshotView, now: Instant, events: Seq<EventView>) -> bool {
        let tick = (self.tick + 1) as u64;
        let (m, seen) = run(self.rules, self.states, observed(self.rules, snap), now, tick);
        &&& seen.len() <= events.len()
        &&& events.take(seen.len() as int) == seen
        &&& exists|ids: Seq<SubjectId>|
            reports_gone(ids, events.skip(seen.len() as int), self.rules, m, snap.procs, now, tick)
    }
}

/// An active alert: rule, subject, how long and since when.
pub type ActiveView = (Seq<char>, Seq<char>, Duration, Instant);

/// The contents of an active alert.
pub open spec fn active_view(a: (String, String, Duration, Instant)) -> ActiveView {
    (a.0@, a.1@, a.2, a.3)
}

/// The contents of a list of active alerts.
pub open spec fn active_views(v: Seq<(String, String, Duration, Instant)>) -> Seq<ActiveView> {
    v.map_values(|a: (String, String, Duration, Instant)| active_view(a))
}

/// Whether no alert is longer active than an earlier one.
pub open spec fn longest_first(v: Seq<ActiveView>) -> bool {
    forall|i: int, j: int|
        0 <= i < j < v.len() ==> (#[trigger] v[i]).2.nanos >= (#[trigger] v[j]).2.nanos
}

impl EngineView {
    /// The active alert of a subject.
    pub open spec fn active_entry(self, id: SubjectId, now: Instant) -> ActiveView {
        let st = self.states[id];
        (self.rules[id.rule as int].name, st.label, now.since(st.since), st.since)
    }

    /// Whether `v` holds the active alerts in the order of `ids`.
    pub open spec fn lists_active_as(self, ids: Seq<SubjectId>, now: Instant, v: Seq<ActiveView>) -> bool {
        &&& ids.no_duplicates()
        &&& forall|id: SubjectId| #[trigger] ids.contains(id) <==> self.fires(id)
        &&& v.len() == ids.len()
        &&& forall|i: int| 0 <= i < ids.len() ==> #[trigger] v[i] == self.active_entry(ids[i], now)
    }

    /// Whether `v` holds each active alert once, the longest active first.
    pub open spec fn lists_active(self, now: Instant, v: Seq<ActiveView>) -> bool {
        &&& exists|ids: Seq<SubjectId>| self.lists_active_as(ids, now, v)
        &&& longest_first(v)
    }
}

fn breaching(rule: &Rule, value: &Binary64) -> (r: bool)
    ensures
        r == rule@.breached_by(*value),
{
    match rule.op {
        Op::Gt => rule.threshold.less(value),
        Op::Lt => value.less(&rule.threshold),
    }
}

fn still_active(rule: &Rule, value: &Binary64) -> (r: bool)
    ensures
        r == rule@.held_by(*value),
{
    match rule.op {
        Op::Gt => !value.less(&rule.clear),
        Op::Lt => !rule.clear.less(value),
    }
}

fn make_event(
    kind: EventKind,
    rule: &Rule,
    subject: &str,
    value: Binary64,
    threshold: Binary64,
    held_for: Duration,
) -> (r: Event)
    ensures
        r@ == event(kind, rule@, subject@, value, threshold, held_for),
{
    Event {
        kind,
        rule_name: copy_str(rule.name.as_str()),
        subject: copy_str(subject),
        metric: rule.metric,
        value,
        threshold,
        held_for,
    }
}

fn note(events: &mut Vec<Event>, e: Event)
    ensures
        final(events)@ == old(events)@.push(e),
        event_views(final(events)@) == event_views(old(events)@).push(e@),
{
    let ghost before = events@;
    events.push(e);
    assert(event_views(events@) =~= event_views(before).push(e@));
}

fn proc_value(rule: &Rule, p: &ProcRate) -> (r: Option<Binary64>)
    ensures
        r == process_value(rule@, p@),
{
    if !rule.target.matches(p.comm.as_str()) {
        return None;
    }
    // A brand new process has no meaningful rate yet.
    if p.is_new {
        return None;
    }
    match rule.metric {
        Metric::CpuPct => Some(p.cpu_pct),
        Metric::Rss => Some(Binary64::from_u64(p.rss_bytes)),
        Metric::ReadBps => p.read_bps,
        Metric::WriteBps => p.write_bps,
        Metric::Threads => Some(Binary64::from_i64(p.threads)),
        _ => None,
    }
}

/// Whether the process that `id` stands for is among `procs` and `rule` watches
/// it.
fn is_watched(rule: &Rule, procs: &Vec<ProcRate>, id: &SubjectId) -> (r: bool)
    ensures
        r == watched(rule@, rate_views(procs@), *id),
{
    let ghost all = rate_views(procs@);
    let (pid, starttime) = match id.proc_key {
        Some(key) => key,
        None => return false,
    };
    let mut i: usize = 0;
    while i < procs.len()
        invariant
            i <= procs.len(),
            all == rate_views(procs@),
            id.proc_key == Some((pid, starttime)),
            forall|k: int|
                0 <= k < i ==> !(id.proc_key == Some(
                    ((#[trigger] all[k]).key.pid, all[k].key.starttime),
                ) && rule@.target.watches(all[k].comm) && !all[k].is_new),
        decreases procs.len() - i,
    {
        let p = &procs[i];
        assert(all[i as int] == p@);
        if p.key.pid == pid && p.key.starttime == starttime && !p.is_new && rule.target.matches(
            p.comm.as_str(),
        ) {
            return true;
        }
        i += 1;
    }
    false
}

fn label_of(p: &ProcRate) -> (r: String)
    ensures
        r@ == process_label(p@),
{
    let mut out = copy_str(p.comm.as_str());
    out.append(" (pid ");
    push_dec_int(&mut out, p.pid as i64);
    out.append(")");
    out
}

impl Engine {
    /// The invariant: every state belongs to a rule, and none was seen in an
    /// evaluation yet to come.
    pub closed spec fn wf(&self) -> bool {
        &&& self.states.wf()
        &&& states_fit(self.states@, self.rules@.len(), self.tick)
    }

    /// An engine with nothing pending or firing.
    pub fn new(rules: Vec<Rule>) -> (r: Engine)
        ensures
            r.wf(),
            r@ == (EngineView { rules: rule_views(rules@), states: Map::empty(), tick: 0 }),
    {
        Engine { rules, states: Table::new(), tick: 0 }
    }

    /// How many evaluations there were.
    pub fn ticks(&self) -> (r: u64)
        ensures
            r == self@.tick,
    {
        self.tick
    }

    /// How many alerts are active.
    pub fn active_count(&self) -> (r: usize)
        requires
            self.wf(),
        ensures
            self@.firing().finite(),
            r == self@.firing().len(),
    {
        let n = self.states.len();
        let ghost keys = self.states.keys();
        let ghost mut counted: Set<SubjectId> = Set::empty();
        proof {
            self.states.lemma_keys();
        }
        let mut count: usize = 0;
        let mut i: usize = 0;
        while i < n
            invariant
                self.states.wf(),
                keys == self.states.keys(),
                keys.no_duplicates(),
                i <= n == keys.len(),
                count <= i,
                counted.finite(),
                count == counted.len(),
                forall|id: SubjectId| #[trigger]
                    counted.contains(id) <==> keys.take(i as int).contains(id) && self@.fires(id),
            decreases n - i,
        {
            let (id, st) = self.states.at(i);
            proof {
                lemma_take_key(keys, i as int);
            }
            if st.phase == Phase::Firing {
                count += 1;
                proof {
                    counted = counted.insert(id);
                }
            }
            i += 1;
        }
        proof {
            self.states.lemma_keys();
            assert(keys.take(i as int) =~= keys);
            assert(counted =~= self@.firing());
        }
        count
    }

    /// The active alerts at `now`: rule, subject, how long and since when. The
    /// longest active come first.
    pub fn active(&self, now: Instant) -> (r: Vec<(String, String, Duration, Instant)>)
        requires
            self.wf(),
        ensures
            self@.lists_active(now, active_views(r@)),
    {
        let n = self.states.len();
        let ghost keys = self.states.keys();
        let ghost mut ids: Seq<SubjectId> = Seq::empty();
        let mut out: Vec<(String, String, Duration, Instant)> = Vec::new();
        proof {
            self.states.lemma_keys();
        }
        let mut i: usize = 0;
        while i < n
            invariant
                self.wf(),
                keys == self.states.keys(),
                keys.no_duplicates(),
                i <= n == keys.len(),
                ids.no_duplicates(),
                forall|id: SubjectId| #[trigger]
                    ids.contains(id) <==> keys.take(i as int).contains(id) && self@.fires(id),
                out@.len() == ids.len(),
                forall|k: int|
                    0 <= k < ids.len() ==> #[trigger] active_views(out@)[k] == self@.active_entry(ids[k], now),
                longest_first(active_views(out@)),
            decreases n - i,
        {
            let (id, st) = self.states.at(i);
            proof {
                lemma_take_key(keys, i as int);
                assert(self.states@.contains_key(id));
            }
            if st.phase == Phase::Firing {
                let rule = &self.rules[id.rule];
                let held = now.saturating_duration_since(st.since);
                let entry = (
                    copy_str(rule.name.as_str()),
                    copy_str(st.label.as_str()),
                    held,
                    st.since,
                );
                let ghost before = active_views(out@);
                let ghost ev = active_view(entry);
                let mut at: usize = out.len();
                while at > 0 && out[at - 1].2.nanos < held.nanos
                    invariant
                        at <= out@.len(),
                        before == active_views(out@),
                        forall|k: int| at <= k < out@.len() ==> (#[trigger] before[k]).2.nanos < held.nanos,
                    decreases at,
                {
                    assert(before[at - 1].2 == out@[at - 1].2);
                    at -= 1;
                }
                proof {
                    if at > 0 {
                        assert(before[at - 1].2 == out@[at - 1].2);
                    }
                    assert(ev == self@.active_entry(id, now));
                    lemma_entry_put(before, ids, at as int, ev, id);
                }
                out.insert(at, entry);
                proof {
                    assert(active_views(out@) =~= before.insert(at as int, ev));
                    ids = ids.insert(at as int, id);
                    assert forall|k: int| 0 <= k < ids.len() implies #[trigger] active_views(out@)[k]
                        == self@.active_entry(ids[k], now) by {
                        if k < at {
                            assert(active_views(out@)[k] == before[k]);
                        } else if k > at {
                            assert(active_views(out@)[k] == before[k - 1]);
                        }
                    }
                }
            }
            i += 1;
        }
        proof {
            self.states.lemma_keys();
            assert(keys.take(i as int) =~= keys);
            assert forall|id: SubjectId| #[trigger] ids.contains(id) <==> self@.fires(id) by {
                assert(self.states@.contains_key(id) <==> keys.contains(id));
            }
            assert(self@.lists_active_as(ids, now, active_views(out@)));
        }
        out
    }

    /// The value of the whole system that a rule looks at, if it looks at one.
    fn system_value(rule: &Rule, s: &Snapshot) -> (r: Option<Binary64>)
        ensures
            r == system_metric(rule.metric, s@.system),
    {
        match rule.metric {
            Metric::CpuPct => Some(s.system.cpu_pct),
            Metric::MemPct => Some(s.system.mem.used_pct()),
            Metric::NetRxBps => Some(s.system.net_rx_bps),
            Metric::NetTxBps => Some(s.system.net_tx_bps),
            Metric::ProcCount => Some(Binary64::from_u64(s.system.proc_count as u64)),
            _ => None,
        }
    }

    /// Observes one subject.
    fn step(
        states: &mut Table<SubjectId, State>,
        events: &mut Vec<Event>,
        id: SubjectId,
        rule: &Rule,
        label: String,
        value: Binary64,
        now: Instant,
        tick: u64,
    )
        requires
            old(states).wf(),
        ensures
            final(states).wf(),
            ({
                let (st, e) = advance(lookup(old(states)@, id), rule@, label@, value, now, tick);
                &&& final(states)@ == with_state(old(states)@, id, st)
                &&& event_views(final(events)@) == noted(event_views(old(events)@), e)
            }),
    {
        let breach = breaching(rule, &value);
        let active = still_active(rule, &value);
        let current = match states.get(&id) {
            Some(st) => Some((st.phase, st.since)),
            None => None,
        };
        match current {
            None => {
                if breach {
                    if rule.sustain.nanos == 0 {
                        note(
                            events,
                            make_event(
                                EventKind::Fired,
                                rule,
                                label.as_str(),
                                value,
                                rule.threshold,
                                Duration::zero(),
                            ),
                        );
                        states.insert(id, State { phase: Phase::Firing, since: now, seen: tick, label });
                    } else {
                        states.insert(id, State { phase: Phase::Pending, since: now, seen: tick, label });
                    }
                } else {
                    assert(states@ =~= states@.remove(id));
                }
            },
            Some((Phase::Pending, since)) => {
                let held = now.saturating_duration_since(since);
                if !breach {
                    // Transient. The sustain timer restarts from scratch at the
                    // next breach.
                    states.remove(&id);
                } else if held.nanos >= rule.sustain.nanos {
                    note(
                        events,
                        make_event(
                            EventKind::Fired,
                            rule,
                            label.as_str(),
                            value,
                            rule.threshold,
                            held,
                        ),
                    );
                    states.insert(id, State { phase: Phase::Firing, since: now, seen: tick, label });
                } else {
                    states.insert(id, State { phase: Phase::Pending, since, seen: tick, label });
                }
            },
            Some((Phase::Firing, since)) => {
                let held = now.saturating_duration_since(since);
                if !active {
                    note(
                        events,
                        make_event(
                            EventKind::Cleared,
                            rule,
                            label.as_str(),
                            value,
                            rule.clear,
                            held,
                        ),
                    );
                    states.remove(&id);
                } else {
                    states.insert(id, State { phase: Phase::Firing, since, seen: tick, label });
                }
            },
        }
    }

    /// Drops the states of subjects not observed in evaluation `tick`, but for
    /// active alerts whose process is still there and watched. An active alert of
    /// one that is gone clears rather than latching forever.
    fn reap(
        rules: &Vec<Rule>,
        procs: &Vec<ProcRate>,
        states: &mut Table<SubjectId, State>,
        events: &mut Vec<Event>,
        now: Instant,
        tick: u64,
    )
        requires
            old(states).wf(),
            states_fit(old(states)@, rules@.len(), tick),
        ensures
            final(states).wf(),
            final(states)@ == present(old(states)@, tick, rule_views(rules@), rate_views(procs@)),
            old(events)@.len() <= final(events)@.len(),
            event_views(final(events)@).take(old(events)@.len() as int) == event_views(old(events)@),
            exists|ids: Seq<SubjectId>|
                reports_gone(
                    ids,
                    event_views(final(events)@).skip(old(events)@.len() as int),
                    rule_views(rules@),
                    old(states)@,
                    rate_views(procs@),
                    now,
                    tick,
                ),
    {
        let ghost m = states@;
        let ghost keys = states.keys();
        let ghost first = event_views(events@);
        let ghost rv = rule_views(rules@);
        let ghost pv = rate_views(procs@);
        let ghost mut ids: Seq<SubjectId> = Seq::empty();
        let mut gone: Vec<SubjectId> = Vec::new();
        let n = states.len();
        proof {
            states.lemma_keys();
            assert(first.take(first.len() as int) =~= first);
        }
        let mut i: usize = 0;
        while i < n
            invariant
                states.wf(),
                m == states@,
                keys == states.keys(),
                keys.no_duplicates(),
                i <= n == keys.len(),
                rv == rule_views(rules@),
                pv == rate_views(procs@),
                states_fit(m, rules@.len(), tick),
                first == event_views(old(events)@),
                forall|id: SubjectId| #[trigger]
                    gone@.contains(id) <==> keys.take(i as int).contains(id) && !stays(m, tick, rv, pv, id),
                ids.no_duplicates(),
                forall|id: SubjectId| #[trigger]
                    ids.contains(id) <==> keys.take(i as int).contains(id) && is_left(m, tick, rv, pv, id),
                event_views(events@).len() == first.len() + ids.len(),
                event_views(events@).take(first.len() as int) == first,
                forall|j: int|
                    0 <= j < ids.len() ==> #[trigger] event_views(events@)[first.len() + j] == gone_event(
                        rv,
                        m,
                        ids[j],
                        now,
                    ),
            decreases n - i,
        {
            let (id, st) = states.at(i);
            let ghost before = event_views(events@);
            let ghost gone_before = gone@;
            let ghost ids_before = ids;
            proof {
                assert(m.contains_key(id));
                lemma_take_key(keys, i as int);
            }
            let firing = st.phase == Phase::Firing;
            if st.seen != tick && !(firing && is_watched(&rules[id.rule], procs, &id)) {
                gone.push(id);
                if firing {
                    let rule = &rules[id.rule];
                    note(
                        events,
                        make_event(
                            EventKind::ClearedGone,
                            rule,
                            st.label.as_str(),
                            Binary64::from_u64(0),
                            rule.threshold,
                            now.saturating_duration_since(st.since),
                        ),
                    );
                    proof {
                        assert(rv[id.rule as int] == rule@);
                        ids = ids.push(id);
                        lemma_one_more(ids_before, id);
                        assert(event_views(events@).take(first.len() as int) =~= before.take(
                            first.len() as int,
                        ));
                        assert forall|j: int| 0 <= j < ids.len() implies #[trigger] event_views(
                            events@,
                        )[first.len() + j] == gone_event(rv, m, ids[j], now) by {
                            if j < ids_before.len() {
                                assert(event_views(events@)[first.len() + j] == before[first.len() + j]);
                            }
                        }
                    }
                }
                proof {
                    lemma_one_more(gone_before, id);
                }
            }
            i += 1;
        }
        proof {
            assert(keys.take(i as int) =~= keys);
            let left = event_views(events@).skip(first.len() as int);
            assert forall|j: int| 0 <= j < ids.len() implies #[trigger] left[j] == gone_event(
                rv,
                m,
                ids[j],
                now,
            ) by {
                assert(left[j] == event_views(events@)[first.len() + j]);
            }
            assert forall|id: SubjectId| #[trigger] ids.contains(id) <==> is_left(m, tick, rv, pv, id) by {
                assert(m.contains_key(id) <==> keys.contains(id));
            }
            assert(reports_gone(ids, left, rv, m, pv, now, tick));
            assert forall|id: SubjectId| #[trigger] gone@.contains(id) <==> m.contains_key(id) && !stays(
                m,
                tick,
                rv,
                pv,
                id,
            ) by {
                assert(m.contains_key(id) <==> keys.contains(id));
            }
        }
        let mut j: usize = 0;
        while j < gone.len()
            invariant
                states.wf(),
                j <= gone@.len(),
                forall|id: SubjectId| #[trigger]
                    states@.contains_key(id) <==> m.contains_key(id) && !gone@.take(j as int).contains(id),
                forall|id: SubjectId| #[trigger] states@.contains_key(id) ==> states@[id] == m[id],
            decreases gone@.len() - j,
        {
            let id = gone[j];
            states.remove(&id);
            proof {
                lemma_take_key(gone@, j as int);
            }
            j += 1;
        }
        proof {
            assert(gone@.take(j as int) =~= gone@);
            assert(states@ =~= present(m, tick, rv, pv));
        }
    }

    /// Evaluates every rule against a snapshot. `now` is handed in rather than
    /// read from a clock, so what happens depends on nothing but the arguments.
    pub fn evaluate(&mut self, snap: &Snapshot, now: Instant) -> (events: Vec<Event>)
        requires
            old(self).wf(),
            old(self)@.tick < u64::MAX,
        ensures
            final(self).wf(),
            final(self)@ == old(self)@.evaluated(snap@, now),
            old(self)@.reports(snap@, now, event_views(events@)),
    {
        self.tick = self.tick + 1;
        let tick = self.tick;
        let mut states: Table<SubjectId, State> = Table::new();
        std::mem::swap(&mut states, &mut self.states);
        let mut events: Vec<Event> = Vec::new();
        let ghost rv = rule_views(self.rules@);
        let ghost m = states@;
        let ghost mut obs: Seq<Observed> = Seq::empty();
        assert(event_views(events@) =~= Seq::<EventView>::empty());
        let mut ri: usize = 0;
        while ri < self.rules.len()
            invariant
                ri <= self.rules@.len(),
                self.rules@ == old(self).rules@,
                self.tick == tick,
                rv == rule_views(self.rules@),
                obs == observed(rv.take(ri as int), snap@),
                states.wf(),
                states_fit(states@, rv.len(), tick),
                run(rv, m, obs, now, tick) == (states@, event_views(events@)),
            decreases self.rules@.len() - ri,
        {
            let rule = &self.rules[ri];
            proof {
                assert(rv[ri as int] == rule@);
                assert(rv.take(ri + 1).drop_last() =~= rv.take(ri as int));
                assert(rv.take(ri + 1).last() == rule@);
            }
            let ghost start = obs;
            match &rule.target {
                Target::System => {
                    if let Some(v) = Self::system_value(rule, snap) {
                        let id = SubjectId { rule: ri, proc_key: None };
                        let label = copy_str("system");
                        let ghost o = Observed { id, label: label@, value: v };
                        Self::step(&mut states, &mut events, id, rule, label, v, now, tick);
                        proof {
                            lemma_run_push(rv, m, obs, o, now, tick);
                            obs = obs.push(o);
                            assert(obs =~= start + observed_by(ri as int, rule@, snap@));
                        }
                    } else {
                        assert(obs =~= start + observed_by(ri as int, rule@, snap@));
                    }
                },
                Target::Process(_) => {
                    let ghost procs = snap@.procs;
                    assert(start =~= start + observed_processes(ri as int, rule@, procs.take(0)));
                    let mut pi: usize = 0;
                    while pi < snap.procs.len()
                        invariant
                            ri < self.rules@.len(),
                            self.rules@ == old(self).rules@,
                            rv == rule_views(self.rules@),
                            rv[ri as int] == rule@,
                            pi <= snap.procs@.len(),
                            procs == snap@.procs,
                            obs == start + observed_processes(ri as int, rule@, procs.take(pi as int)),
                            states.wf(),
                            states_fit(states@, rv.len(), tick),
                            run(rv, m, obs, now, tick) == (states@, event_views(events@)),
                        decreases snap.procs@.len() - pi,
                    {
                        let p = &snap.procs[pi];
                        proof {
                            assert(procs[pi as int] == p@);
                            assert(procs.take(pi + 1).drop_last() =~= procs.take(pi as int));
                            assert(procs.take(pi + 1).last() == p@);
                        }
                        if let Some(v) = proc_value(rule, p) {
                            let id = SubjectId {
                                rule: ri,
                                proc_key: Some((p.key.pid, p.key.starttime)),
                            };
                            let label = label_of(p);
                            let ghost o = Observed { id, label: label@, value: v };
                            Self::step(&mut states, &mut events, id, rule, label, v, now, tick);
                            proof {
                                lemma_run_push(rv, m, obs, o, now, tick);
                                obs = obs.push(o);
                                assert(obs =~= start + observed_processes(
                                    ri as int,
                                    rule@,
                                    procs.take(pi + 1),
                                ));
                            }
                        }
                        pi += 1;
                    }
                    assert(procs.take(pi as int) =~= procs);
                },
            }
            ri += 1;
        }
        assert(rv.take(ri as int) =~= rv);
        Self::reap(&self.rules, &snap.procs, &mut states, &mut events, now, tick);
        std::mem::swap(&mut states, &mut self.states);
        proof {
            assert(self@ == old(self)@.evaluated(snap@, now));
        }
        events
    }
}

proof fn lemma_entry_put(
    v: Seq<ActiveView>,
    ids: Seq<SubjectId>,
    at: int,
    e: ActiveView,
    id: SubjectId,
)
    requires
        longest_first(v),
        0 <= at <= v.len(),
        v.len() == ids.len(),
        at > 0 ==> v[at - 1].2.nanos >= e.2.nanos,
        forall|k: int| at <= k < v.len() ==> (#[trigger] v[k]).2.nanos < e.2.nanos,
        ids.no_duplicates(),
        !ids.contains(id),
    ensures
        longest_first(v.insert(at, e)),
        ids.insert(at, id).no_duplicates(),
        forall|x: SubjectId| #[trigger] ids.insert(at, id).contains(x) <==> ids.contains(x) || x == id,
{
    let w = v.insert(at, e);
    let more = ids.insert(at, id);
    assert forall|i: int, j: int| 0 <= i < j < w.len() implies (#[trigger] w[i]).2.nanos >= (
    #[trigger] w[j]).2.nanos by {
        let x = if i < at {
            i
        } else {
            i - 1
        };
        let y = if j < at {
            j
        } else {
            j - 1
        };
        if i == at {
            assert(w[j] == v[y]);
        } else if j == at {
            assert(w[i] == v[x]);
            assert(v[x].2.nanos >= v[at - 1].2.nanos);
        } else {
            assert(w[i] == v[x] && w[j] == v[y]);
        }
    }
    assert forall|x: SubjectId| #[trigger] more.contains(x) <==> ids.contains(x) || x == id by {
        if ids.contains(x) {
            let k = ids.index_of(x);
            if k < at {
                assert(more[k] == x);
            } else {
                assert(more[k + 1] == x);
            }
        }
        assert(more[at] == id);
        if more.contains(x) && x != id {
            let k = more.index_of(x);
            if k < at {
                assert(ids[k] == x);
            } else {
                assert(ids[k - 1] == x);
            }
        }
    }
    assert forall|i: int, j: int| 0 <= i < more.len() && 0 <= j < more.len() && i != j implies more[i]
        != more[j] by {
        let x = if i < at {
            i
        } else {
            i - 1
        };
        let y = if j < at {
            j
        } else {
            j - 1
        };
        if i == at {
            assert(more[j] == ids[y]);
            assert(ids.contains(ids[y]));
        } else if j == at {
            assert(more[i] == ids[x]);
            assert(ids.contains(ids[x]));
        } else {
            assert(more[i] == ids[x] && more[j] == ids[y]);
        }
    }
}

proof fn lemma_take_key(keys: Seq<SubjectId>, i: int)
    requires
        0 <= i < keys.len(),
    ensures
        forall|id: SubjectId| #[trigger]
            keys.take(i + 1).contains(id) <==> keys.take(i).contains(id) || id == keys[i],
        keys.no_duplicates() ==> !keys.take(i).contains(keys[i]),
{
    let a = keys.take(i);
    let b = keys.take(i + 1);
    assert forall|id: SubjectId| #[trigger] b.contains(id) <==> a.contains(id) || id == keys[i] by {
        if b.contains(id) {
            let j = b.index_of(id);
            if j < i {
                assert(a[j] == id);
            }
        }
        if a.contains(id) {
            let j = a.index_of(id);
            assert(b[j] == id);
        }
        assert(b[i] == keys[i]);
    }
    if keys.no_duplicates() && a.contains(keys[i]) {
        let j = a.index_of(keys[i]);
        assert(keys[j] == keys[i]);
    }
}

proof fn lemma_one_more(ids: Seq<SubjectId>, id: SubjectId)
    ensures
        forall|x: SubjectId| #[trigger] ids.push(id).contains(x) <==> ids.contains(x) || x == id,
        ids.no_duplicates() && !ids.contains(id) ==> ids.push(id).no_duplicates(),
{
    let more = ids.push(id);
    assert forall|x: SubjectId| #[trigger] more.contains(x) <==> ids.contains(x) || x == id by {
        if ids.contains(x) {
            let j = ids.index_of(x);
            assert(more[j] == x);
        }
        assert(more[ids.len() as int] == id);
    }
}

proof fn lemma_run_push(
    rules: Seq<RuleView>,
    states: Map<SubjectId, StateView>,
    obs: Seq<Observed>,
    o: Observed,
    now: Instant,
    tick: u64,
)
    ensures
        run(rules, states, obs.push(o), now, tick) == ({
            let (m, events) = run(rules, states, obs, now, tick);
            let (st, e) = advance(
                lookup(m, o.id),
                rules[o.id.rule as int],
                o.label,
                o.value,
                now,
                tick,
            );
            (with_state(m, o.id, st), noted(events, e))
        }),
{
    assert(obs.push(o).drop_last() =~= obs);
}

/// Whether every state belongs to one of `n` rules and was seen by evaluation
/// `tick`.
pub open spec fn states_fit(m: Map<SubjectId, StateView>, n: nat, tick: u64) -> bool {
    forall|id: SubjectId| #[trigger]
        m.contains_key(id) ==> id.rule < n && m[id].seen <= tick
}

} // verus!
