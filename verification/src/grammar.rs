//! What rule files promise.

use vstd::prelude::*;

use crate::alerting::law_comments_are_ignored;
use crate::binary64::{of_int, Binary64};
use crate::decimal::{law_whole_numbers_read_back, lowered, parse_real};
use crate::numbers::{dec, law_dec_reads_back};
use crate::reading::{
    blank, is_line, is_tight, is_word, law_one_more_line, law_trimming_takes_blanks_away, law_words_read_back, lemma_spaced_lacks, spaced,
    whole_lines,
};
use crate::rules::{
    content, error_text, errors_in, line_outcome, metric_named, rule_of, rules_in, target_named, value, Metric, Op, ParseErrorView, Reason,
    RuleView, TargetView,
};
use crate::text::{digits, is_digit, lemma_span, lines, other_than, starts_with, tokens};
use crate::time::Duration;
use crate::units::{
    duration, duration_unit, law_whole_durations_are_exact, law_whole_sizes_are_exact, size, size_unit,
};

verus! {

/// The names of the metrics, and no other name is one.
pub proof fn law_metrics_have_these_names(s: Seq<char>)
    ensures
        metric_named(s) == Some(Metric::CpuPct) <==> s == "cpu_pct"@ || s == "cpu"@,
        metric_named(s) == Some(Metric::MemPct) <==> s == "mem_pct"@,
        metric_named(s) == Some(Metric::Rss) <==> s == "rss"@ || s == "rss_bytes"@ || s == "mem"@,
        metric_named(s) == Some(Metric::ReadBps) <==> s == "read_bps"@,
        metric_named(s) == Some(Metric::WriteBps) <==> s == "write_bps"@,
        metric_named(s) == Some(Metric::NetRxBps) <==> s == "net_rx_bps"@,
        metric_named(s) == Some(Metric::NetTxBps) <==> s == "net_tx_bps"@,
        metric_named(s) == Some(Metric::Threads) <==> s == "threads"@,
        metric_named(s) == Some(Metric::ProcCount) <==> s == "proc_count"@,
{
    reveal_strlit("cpu_pct");
    reveal_strlit("cpu");
    reveal_strlit("mem_pct");
    reveal_strlit("rss");
    reveal_strlit("rss_bytes");
    reveal_strlit("mem");
    reveal_strlit("read_bps");
    reveal_strlit("write_bps");
    reveal_strlit("net_rx_bps");
    reveal_strlit("net_tx_bps");
    reveal_strlit("threads");
    reveal_strlit("proc_count");
    assert("cpu_pct"@.len() == 7);
    assert("cpu"@.len() == 3);
    assert("mem_pct"@.len() == 7);
    assert("rss"@.len() == 3);
    assert("rss_bytes"@.len() == 9);
    assert("mem"@.len() == 3);
    assert("read_bps"@.len() == 8);
    assert("write_bps"@.len() == 9);
    assert("net_rx_bps"@.len() == 10);
    assert("net_tx_bps"@.len() == 10);
    assert("threads"@.len() == 7);
    assert("proc_count"@.len() == 10);
    assert("cpu_pct"@[0] == 'c' && "mem_pct"@[0] == 'm');
    assert("cpu_pct"@[0] == 'c' && "threads"@[0] == 't');
    assert("cpu"@[0] == 'c' && "rss"@[0] == 'r');
    assert("cpu"@[0] == 'c' && "mem"@[0] == 'm');
    assert("mem_pct"@[0] == 'm' && "threads"@[0] == 't');
    assert("rss"@[0] == 'r' && "mem"@[0] == 'm');
    assert("rss_bytes"@[0] == 'r' && "write_bps"@[0] == 'w');
    assert("net_rx_bps"@[4] == 'r' && "net_tx_bps"@[4] == 't');
    assert("net_rx_bps"@[0] == 'n' && "proc_count"@[0] == 'p');
    assert("net_tx_bps"@[0] == 'n' && "proc_count"@[0] == 'p');
}

/// Whether a metric counts bytes.
pub open spec fn of_bytes(metric: Metric) -> bool {
    metric == Metric::Rss || metric == Metric::ReadBps || metric == Metric::WriteBps || metric == Metric::NetRxBps
        || metric == Metric::NetTxBps
}

/// A size has the unit of its suffix: a kilobyte is 1024 bytes, a megabyte as
/// many kilobytes and a gigabyte as many megabytes. Without one it is in bytes.
pub proof fn law_units_of_size(n: nat, u: Seq<char>, k: nat)
    requires
        ({
            ||| (u == "GB"@ || u == "G"@) && k == 1024 * 1024 * 1024
            ||| (u == "MB"@ || u == "M"@) && k == 1024 * 1024
            ||| (u == "KB"@ || u == "K"@) && k == 1024
            ||| (u == "B"@ || u == ""@) && k == 1
        }),
        n * k < 0x20_0000_0000_0000,
    ensures
        size(dec(n) + u) == Some((n * k) as u64),
{
    lemma_size_units();
    law_whole_sizes_are_exact(n, u);
}

proof fn lemma_size_units()
    ensures
        size_unit("GB"@) == Some(0x4000_0000nat),
        size_unit("G"@) == Some(0x4000_0000nat),
        size_unit("MB"@) == Some(0x10_0000nat),
        size_unit("M"@) == Some(0x10_0000nat),
        size_unit("KB"@) == Some(0x400nat),
        size_unit("K"@) == Some(0x400nat),
        size_unit("B"@) == Some(1nat),
        size_unit(""@) == Some(1nat),
{
    reveal_strlit("GB");
    reveal_strlit("G");
    reveal_strlit("MB");
    reveal_strlit("M");
    reveal_strlit("KB");
    reveal_strlit("K");
    reveal_strlit("B");
    reveal_strlit("");
    assert("GB"@.len() == 2 && "GB"@[0] == 'G');
    assert("MB"@.len() == 2 && "MB"@[0] == 'M');
    assert("KB"@.len() == 2 && "KB"@[0] == 'K');
    assert("G"@.len() == 1 && "G"@[0] == 'G');
    assert("M"@.len() == 1 && "M"@[0] == 'M');
    assert("K"@.len() == 1 && "K"@[0] == 'K');
    assert("B"@.len() == 1 && "B"@[0] == 'B');
}

/// A duration has the unit of its suffix: milliseconds, seconds, minutes of sixty
/// seconds or hours of sixty minutes. Without one it is in seconds.
pub proof fn law_units_of_duration(n: nat, u: Seq<char>, nanos: nat)
    requires
        ({
            ||| u == "ms"@ && nanos == 1_000_000
            ||| (u == "s"@ || u == ""@) && nanos == 1_000_000_000
            ||| u == "m"@ && nanos == 60 * 1_000_000_000
            ||| u == "h"@ && nanos == 60 * 60 * 1_000_000_000
        }),
        n < 0x8000_0000,
    ensures
        duration(dec(n) + u) == Some(Duration { nanos: (n * nanos) as u128 }),
{
    lemma_duration_units();
    let k = duration_unit(u)->0;
    assert(n * k < 0x20_0000_0000_0000) by (nonlinear_arith)
        requires
            n < 0x8000_0000,
            k <= 3_600_000,
    ;
    assert(n * k * 1_000_000 == n * nanos) by (nonlinear_arith)
        requires
            nanos == k * 1_000_000,
    ;
    law_whole_durations_are_exact(n, u);
}

proof fn lemma_duration_units()
    ensures
        duration_unit("ms"@) == Some(1nat),
        duration_unit("s"@) == Some(1000nat),
        duration_unit(""@) == Some(1000nat),
        duration_unit("m"@) == Some(60_000nat),
        duration_unit("h"@) == Some(3_600_000nat),
{
    reveal_strlit("ms");
    reveal_strlit("s");
    reveal_strlit("m");
    reveal_strlit("h");
    reveal_strlit("");
    assert("ms"@.len() == 2);
    assert("s"@.len() == 1 && "s"@[0] == 's');
    assert("m"@.len() == 1 && "m"@[0] == 'm');
    assert("h"@.len() == 1 && "h"@[0] == 'h');
}

/// A threshold is a number. Only one that counts bytes may have the suffix of a
/// size, and is then that many bytes.
pub proof fn law_thresholds_are_numbers_or_sizes(n: nat, metric: Metric, u: Seq<char>, k: nat)
    requires
        ({
            ||| (u == "GB"@ || u == "G"@) && k == 1024 * 1024 * 1024
            ||| (u == "MB"@ || u == "M"@) && k == 1024 * 1024
            ||| (u == "KB"@ || u == "K"@) && k == 1024
        }),
        n * k < 0x20_0000_0000_0000,
    ensures
        of_bytes(metric) ==> value(dec(n) + u, metric) == Some(of_int((n * k) as int)),
        !of_bytes(metric) ==> value(dec(n) + u, metric) is None,
{
    if of_bytes(metric) {
        law_units_of_size(n, u, k);
    } else {
        reveal_strlit("GB");
        reveal_strlit("G");
        reveal_strlit("MB");
        reveal_strlit("M");
        reveal_strlit("KB");
        reveal_strlit("K");
        lemma_no_real(n, u);
    }
}

/// A threshold without a suffix is the number that is written.
pub proof fn law_thresholds_are_numbers(n: nat, metric: Metric)
    requires
        n < 0x20_0000_0000_0000,
    ensures
        value(dec(n), metric) == Some(of_int(n as int)),
{
    law_whole_numbers_read_back(n);
    law_units_of_size(n, ""@, 1);
    reveal_strlit("");
    assert(dec(n) + ""@ =~= dec(n));
}

proof fn lemma_no_real(n: nat, u: Seq<char>)
    requires
        u.len() > 0,
        u[0] == 'K' || u[0] == 'M' || u[0] == 'G',
    ensures
        parse_real(dec(n) + u) is None,
{
    let s = dec(n) + u;
    let k = dec(n).len();
    law_dec_reads_back(n);
    assert(is_digit(dec(n)[0]));
    assert(s[0] == dec(n)[0]);
    assert forall|i: int| 0 <= i < k implies digits()(#[trigger] s[i]) by {
        assert(s[i] == dec(n)[i]);
        assert(is_digit(dec(n)[i]));
    }
    assert(s[k as int] == u[0]);
    lemma_span(s, digits(), k);
    assert(s.skip(k as int)[0] == u[0]);
    reveal_strlit("inf");
    reveal_strlit("infinity");
    reveal_strlit("nan");
    let l = lowered(s);
    assert(l[0] == s[0]);
    assert("inf"@[0] == 'i' && "infinity"@[0] == 'i' && "nan"@[0] == 'n');
}

// ------------------------------------------------------------------ lines --

/// Whether a line can be made of these words.
pub open spec fn are_words(t: Seq<Seq<char>>) -> bool {
    &&& t.len() > 0
    &&& forall|i: int| 0 <= i < t.len() ==> is_word(#[trigger] t[i]) && !t[i].contains('#')
    &&& t[0][0] as nat <= 0x7f && t[0][0] != '\u{b}'
    &&& t.last().last() as nat <= 0x7f && t.last().last() != '\u{b}'
}

proof fn lemma_spaced_front(t: Seq<Seq<char>>)
    requires
        t.len() > 0,
        forall|i: int| 0 <= i < t.len() ==> is_word(#[trigger] t[i]),
    ensures
        spaced(t).len() > 1,
        spaced(t)[0] == ' ',
        spaced(t)[1] == t[0][0],
        spaced(t).last() == t.last().last(),
    decreases t.len(),
{
    let less = t.drop_last();
    assert(is_word(t[t.len() - 1]));
    assert(is_word(t[0]));
    if less.len() > 0 {
        assert forall|i: int| 0 <= i < less.len() implies is_word(#[trigger] less[i]) by {
            assert(less[i] == t[i]);
        }
        lemma_spaced_front(less);
    } else {
        assert(spaced(less) =~= Seq::<char>::empty());
    }
}

/// A line says what its words say; what follows a `#` says nothing.
pub proof fn law_lines_say_what_their_words_say(t: Seq<Seq<char>>, comment: Seq<char>)
    requires
        are_words(t),
    ensures
        line_outcome(spaced(t)) == Some(rule_of(t)),
        line_outcome(spaced(t) + seq!['#'] + comment) == Some(rule_of(t)),
{
    let s = spaced(t);
    lemma_spaced_front(t);
    assert forall|i: int| 0 <= i < t.len() implies !(#[trigger] t[i]).contains('#') by {
        assert(is_word(t[i]));
    }
    lemma_spaced_lacks(t, '#');
    assert forall|k: int| 0 <= k < s.len() implies other_than('#')(#[trigger] s[k]) by {
        assert(s.contains(s[k]));
    }
    lemma_span(s, other_than('#'), s.len());
    assert(s.take(s.len() as int) =~= s);
    let body = s.skip(1);
    assert(s =~= seq![' '] + body + Seq::<char>::empty());
    assert(body[0] == t[0][0]);
    assert(body.last() == t.last().last());
    let ends = seq![body[0], body.last()];
    assert(is_word(t[0]));
    assert(is_word(t[t.len() - 1]));
    assert(!blank(t[0][0]));
    assert(!blank(t.last()[t.last().len() - 1]));
    assert forall|i: int| 0 <= i < ends.len() implies !blank(#[trigger] ends[i]) by {}
    law_trimming_takes_blanks_away(seq![' '], body, seq![]);
    assert(content(s) == body);
    law_words_read_back(t);
    assert(s[0] == ' ');
    assert(tokens(s) == tokens(s.skip(1)));
    law_comments_are_ignored(s, comment);
}

/// A line of blanks alone says nothing.
pub proof fn law_blank_lines_say_nothing(s: Seq<char>)
    requires
        forall|i: int| 0 <= i < s.len() ==> blank(#[trigger] s[i]),
    ensures
        line_outcome(s) is None,
{
    assert forall|k: int| 0 <= k < s.len() implies other_than('#')(#[trigger] s[k]) by {
        assert(blank(s[k]));
    }
    lemma_span(s, other_than('#'), s.len());
    assert(s.take(s.len() as int) =~= s + Seq::<char>::empty() + Seq::<char>::empty());
    law_trimming_takes_blanks_away(s, seq![], seq![]);
}

/// One more line adds its rule behind the others, or its error with the number
/// and the text of the line, or nothing; it takes nothing away.
pub proof fn law_each_line_adds_its_own(s: Seq<char>, l: Seq<char>)
    requires
        whole_lines(s),
        is_line(l),
    ensures
        ({
            let t = s + l + seq!['\n'];
            match line_outcome(l) {
                Some(Ok(rule)) => rules_in(lines(t)) == rules_in(lines(s)).push(rule) && errors_in(lines(t))
                    == errors_in(lines(s)),
                Some(Err(reason)) => rules_in(lines(t)) == rules_in(lines(s)) && errors_in(lines(t))
                    == errors_in(lines(s)).push(
                    ParseErrorView { line_no: lines(s).len() + 1, line: l, reason: reason.words() },
                ),
                None => rules_in(lines(t)) == rules_in(lines(s)) && errors_in(lines(t)) == errors_in(lines(s)),
            }
        }),
        rules_in(lines(seq![])).len() == 0,
        errors_in(lines(seq![])).len() == 0,
{
    law_one_more_line(s, l);
    assert(lines(s).push(l).drop_last() =~= lines(s));
}

// ------------------------------------------------------------------ rules --

/// Whether the word names the target.
pub open spec fn names_target(w: Seq<char>, target: TargetView) -> bool {
    match target {
        TargetView::System => w == "system"@,
        TargetView::Process(p) => p.len() > 0 && w == "process:"@ + p,
    }
}

/// Whether a metric can be that of a target.
pub open spec fn suits(metric: Metric, target: TargetView) -> bool {
    target == TargetView::System || metric == Metric::CpuPct || metric == Metric::Rss || metric
        == Metric::ReadBps || metric == Metric::WriteBps || metric == Metric::Threads
}

/// Whether a value is on the side of the threshold on which the condition does
/// not hold, or at it.
pub open spec fn comes_back(op: Op, clear: Binary64, threshold: Binary64) -> bool {
    match op {
        Op::Gt => clear.le(threshold),
        Op::Lt => threshold.le(clear),
    }
}

proof fn lemma_target(w: Seq<char>, target: TargetView)
    requires
        names_target(w, target),
    ensures
        target_named(w) == Ok::<TargetView, Reason>(target),
{
    reveal_strlit("system");
    reveal_strlit("process:");
    match target {
        TargetView::System => {},
        TargetView::Process(p) => {
            assert(w[0] == 'p');
            assert("system"@[0] == 's');
            assert(w.take(8) =~= "process:"@);
            assert(w.skip(8) =~= p);
        },
    }
}

/// A rule that is written out is read back, word for word: its name, its target,
/// its metric, its operator, its threshold, how long the condition has to hold,
/// and where it clears. Without a clear value it clears at the threshold.
pub proof fn law_rules_read_back(t: Seq<Seq<char>>, rule: RuleView)
    requires
        t.len() == 8 || t.len() == 10,
        t[0] == "alert"@,
        t[1] == rule.name,
        names_target(t[2], rule.target),
        metric_named(t[3]) == Some(rule.metric),
        suits(rule.metric, rule.target),
        t[4] == ">"@ && rule.op == Op::Gt || t[4] == "<"@ && rule.op == Op::Lt,
        value(t[5], rule.metric) == Some(rule.threshold),
        t[6] == "for"@,
        duration(t[7]) == Some(rule.sustain),
        t.len() == 8 ==> rule.clear == rule.threshold,
        t.len() == 10 ==> t[8] == "clear"@ && value(t[9], rule.metric) == Some(rule.clear) && comes_back(
            rule.op,
            rule.clear,
            rule.threshold,
        ),
    ensures
        rule_of(t) == Ok::<RuleView, Reason>(rule),
{
    lemma_target(t[2], rule.target);
    reveal_strlit(">");
    reveal_strlit("<");
    assert(">"@[0] == '>' && "<"@[0] == '<');
}

/// The first fault of a line is the one that is told, in the order of its words.
pub proof fn law_the_first_fault_is_told(t: Seq<Seq<char>>, target: TargetView, metric: Metric, op: Op)
    ensures
        t.len() == 0 || t[0] != "alert"@ ==> rule_of(t) == Err::<RuleView, Reason>(Reason::NotAlert),
        0 < t.len() < 8 && t[0] == "alert"@ ==> rule_of(t) == Err::<RuleView, Reason>(Reason::TooFew),
        t.len() >= 8 && t[0] == "alert"@ ==> {
            &&& t[2] == "process:"@ ==> rule_of(t) == Err::<RuleView, Reason>(Reason::EmptyPattern)
            &&& t[2] != "system"@ && !(exists|p: Seq<char>| t[2] == #[trigger] ("process:"@ + p)) ==> rule_of(
                t,
            ) == Err::<RuleView, Reason>(Reason::BadTarget)
            &&& names_target(t[2], target) ==> {
                &&& metric_named(t[3]) is None ==> rule_of(t) == Err::<RuleView, Reason>(
                    Reason::UnknownMetric,
                )
                &&& metric_named(t[3]) == Some(metric) && !suits(metric, target) ==> rule_of(t) == Err::<
                    RuleView,
                    Reason,
                >(Reason::SystemWide)
                &&& metric_named(t[3]) == Some(metric) && suits(metric, target) ==> {
                    &&& t[4] != ">"@ && t[4] != "<"@ ==> rule_of(t) == Err::<RuleView, Reason>(
                        Reason::BadOperator,
                    )
                    &&& t[4] == ">"@ && op == Op::Gt || t[4] == "<"@ && op == Op::Lt ==> {
                        let threshold = value(t[5], metric);
                        let clear = value(t[9], metric);
                        &&& threshold is None ==> rule_of(t) == Err::<RuleView, Reason>(Reason::BadThreshold)
                        &&& threshold is Some && t[6] != "for"@ ==> rule_of(t) == Err::<RuleView, Reason>(
                            Reason::NoFor,
                        )
                        &&& threshold is Some && t[6] == "for"@ && duration(t[7]) is None ==> rule_of(t)
                            == Err::<RuleView, Reason>(Reason::BadDuration)
                        &&& threshold is Some && t[6] == "for"@ && duration(t[7]) is Some ==> {
                            &&& t.len() == 9 || t.len() > 10 || t.len() == 10 && t[8] != "clear"@ ==> rule_of(
                                t,
                            ) == Err::<RuleView, Reason>(Reason::Trailing)
                            &&& t.len() == 10 && t[8] == "clear"@ && clear is None ==> rule_of(t) == Err::<
                                RuleView,
                                Reason,
                            >(Reason::BadClear)
                            &&& t.len() == 10 && t[8] == "clear"@ && clear is Some && !comes_back(
                                op,
                                clear->0,
                                threshold->0,
                            ) ==> rule_of(t) == Err::<RuleView, Reason>(Reason::WrongSide)
                        }
                    }
                }
            }
        },
{
    reveal_strlit("system");
    reveal_strlit("process:");
    reveal_strlit(">");
    reveal_strlit("<");
    assert(">"@[0] == '>' && "<"@[0] == '<');
    assert("system"@[0] == 's' && "process:"@[0] == 'p');
    if t.len() >= 8 && t[0] == "alert"@ {
        let w = t[2];
        if w == "process:"@ {
            assert(w.take(8) =~= "process:"@);
            assert(w.skip(8).len() == 0);
        }
        if starts_with(w, "process:"@) {
            assert(w =~= "process:"@ + w.skip(8)) by {
                assert(w =~= w.take(8) + w.skip(8));
            }
        }
        if names_target(w, target) {
            lemma_target(w, target);
        }
    }
}

/// A threshold that does not count bytes is a number as it is written, whatever
/// that is; one that counts bytes is a size where it is one, and else a number.
pub proof fn law_what_a_threshold_can_be(w: Seq<char>, metric: Metric)
    ensures
        !of_bytes(metric) ==> value(w, metric) == parse_real(w),
        of_bytes(metric) && size(w) is None ==> value(w, metric) == parse_real(w),
        of_bytes(metric) && size(w) is Some ==> value(w, metric) == Some(of_int(size(w)->0 as int)),
{
}

/// What is wrong with a line is told in different words for every reason.
pub proof fn law_reasons_are_told_apart(a: Reason, b: Reason)
    requires
        a != b,
    ensures
        a.words() != b.words(),
{
    reveal_strlit("expected a line beginning with `alert`");
    reveal_strlit("too few fields; expected: alert <name> <target> <metric> <op> <value> for <dur>");
    reveal_strlit("empty process pattern");
    reveal_strlit("target must be `system` or `process:<comm>` (or `process:*`)");
    reveal_strlit("unknown metric");
    reveal_strlit("that metric is system-wide and cannot be scoped to a process");
    reveal_strlit("operator must be > or <");
    reveal_strlit("could not parse threshold value");
    reveal_strlit("expected keyword `for` before the duration");
    reveal_strlit("could not parse duration");
    reveal_strlit("trailing tokens; expected `clear <value>`");
    reveal_strlit("could not parse clear value");
    reveal_strlit("clear value is on the wrong side of the threshold; the alert could never clear");
    assert("expected a line beginning with `alert`"@.len() == 38);
    assert("too few fields; expected: alert <name> <target> <metric> <op> <value> for <dur>"@.len() == 79);
    assert("empty process pattern"@.len() == 21);
    assert("target must be `system` or `process:<comm>` (or `process:*`)"@.len() == 60);
    assert("unknown metric"@.len() == 14);
    assert("that metric is system-wide and cannot be scoped to a process"@.len() == 60);
    assert("operator must be > or <"@.len() == 23);
    assert("could not parse threshold value"@.len() == 31);
    assert("expected keyword `for` before the duration"@.len() == 42);
    assert("could not parse duration"@.len() == 24);
    assert("trailing tokens; expected `clear <value>`"@.len() == 41);
    assert("could not parse clear value"@.len() == 27);
    assert("clear value is on the wrong side of the threshold; the alert could never clear"@.len() == 78);
    assert("target must be `system` or `process:<comm>` (or `process:*`)"@[1] == 'a' && "that metric is system-wide and cannot be scoped to a process"@[1] == 'h');
}

/// A message gives the number of the line, what is wrong with it, and the line.
pub proof fn law_messages_point_at_their_line(e: ParseErrorView, quoted: Seq<char>)
    ensures
        error_text(e, quoted) == "line "@ + dec(e.line_no) + ": "@ + e.reason + " (in: "@ + quoted + ")"@,
{
}

/// The name under which a metric is shown.
pub proof fn law_metrics_are_shown_by_name(m: Metric)
    ensures
        m == Metric::CpuPct ==> m.text() == "cpu_pct"@,
        m == Metric::MemPct ==> m.text() == "mem_pct"@,
        m == Metric::Rss ==> m.text() == "rss"@,
        m == Metric::ReadBps ==> m.text() == "read_bps"@,
        m == Metric::WriteBps ==> m.text() == "write_bps"@,
        m == Metric::NetRxBps ==> m.text() == "net_rx_bps"@,
        m == Metric::NetTxBps ==> m.text() == "net_tx_bps"@,
        m == Metric::Threads ==> m.text() == "threads"@,
        m == Metric::ProcCount ==> m.text() == "proc_count"@,
{
}

/// However the words of a line are spaced, and whatever blanks stand around them,
/// the line says what its words say.
pub proof fn law_spacing_says_nothing(before: Seq<char>, s: Seq<char>, after: Seq<char>)
    requires
        forall|i: int| 0 <= i < before.len() ==> blank(#[trigger] before[i]),
        forall|i: int| 0 <= i < after.len() ==> blank(#[trigger] after[i]),
        is_tight(s),
        !s.contains('#'),
    ensures
        line_outcome(before + s + after) == Some(rule_of(tokens(s))),
{
    let raw = before + s + after;
    assert forall|k: int| 0 <= k < raw.len() implies other_than('#')(#[trigger] raw[k]) by {
        if k < before.len() {
            assert(blank(before[k]));
        } else if k < before.len() + s.len() {
            assert(s.contains(s[k - before.len()]));
        } else {
            assert(blank(after[k - before.len() - s.len()]));
        }
    }
    lemma_span(raw, other_than('#'), raw.len());
    assert(raw.take(raw.len() as int) =~= raw);
    let ends = seq![s[0], s.last()];
    assert forall|i: int| 0 <= i < ends.len() implies !blank(#[trigger] ends[i]) by {}
    law_trimming_takes_blanks_away(before, s, after);
}

} // verus!
