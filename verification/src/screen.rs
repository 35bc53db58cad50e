//! What the terminal view promises.

use vstd::prelude::*;

use crate::binary64::{of_int, Binary64};
use crate::decimal::{fixed, scaled};
use crate::delta::{ProcRateView, SnapshotView, SystemRateView};
use crate::numbers::{dec, dec_int, dec_padded, pow10};
use crate::reading::{
    blank, is_word, law_a_word_is_one_word, law_words_split_at_blanks, lemma_dec_int_is_a_word, lemma_dec_is_a_word,
};
use crate::render::{
    alert_line, alert_lines, at_most, core_cells, cores_line, counts_line, disk_text, event_line, events_part, headline,
    left_in, millis, newest_lines, recent_cpu, right_in, row, rows, spaces, spark, table_head, tag, text_view,
};
use crate::rules::{EventKind, EventView, Metric};
use crate::sampler::{AlertView, HistoryPoint};
use crate::text::{is_digit, tokens};
use crate::time::secs_real;
use crate::units::{bytes_text, rate_text, shrunk, suffix};

verus! {

// ---------------------------------------------------------------- numbers --

proof fn lemma_padded_is_digits(n: nat, w: nat)
    ensures
        dec_padded(n, w).len() == w,
        forall|i: int| 0 <= i < w ==> is_digit(#[trigger] dec_padded(n, w)[i]),
    decreases w,
{
    if w > 0 {
        lemma_padded_is_digits(n / 10, (w - 1) as nat);
    }
}

proof fn lemma_fixed_is_a_word(x: Binary64, p: nat)
    ensures
        is_word(fixed(x, p)),
{
    reveal_strlit("NaN");
    reveal_strlit("inf");
    let t = scaled(x.units(), p);
    lemma_dec_is_a_word(t);
    lemma_dec_is_a_word(t / pow10(p));
    lemma_padded_is_digits(t % pow10(p), p);
    let s = fixed(x, p);
    let sign = if x.negative() {
        seq!['-']
    } else {
        seq![]
    };
    let k = sign.len();
    assert forall|i: int| 0 <= i < s.len() implies !blank(#[trigger] s[i]) by {
        if !x.is_nan() && i >= k {
            if x.is_infinite() {
                assert(s[i] == "inf"@[i - k]);
            } else if p == 0 {
                assert(s[i] == dec(t)[i - k]);
            } else {
                let a = dec(t / pow10(p));
                if i - k < a.len() {
                    assert(s[i] == a[i - k]);
                } else if i - k > a.len() {
                    assert(s[i] == dec_padded(t % pow10(p), p)[i - k - a.len() - 1]);
                    assert(is_digit(s[i]));
                }
            }
        }
    }
}

proof fn lemma_joined_word(a: Seq<char>, b: Seq<char>)
    requires
        is_word(a),
        forall|i: int| 0 <= i < b.len() ==> !blank(#[trigger] b[i]),
    ensures
        is_word(a + b),
{
    let s = a + b;
    assert forall|i: int| 0 <= i < s.len() implies !blank(#[trigger] s[i]) by {
        if i < a.len() {
            assert(s[i] == a[i]);
        } else {
            assert(s[i] == b[i - a.len()]);
        }
    }
}

proof fn lemma_bytes_is_a_word(n: nat)
    ensures
        is_word(bytes_text(n)),
{
    let (v, i) = shrunk(of_int(n as int), 0);
    lemma_dec_is_a_word(n);
    lemma_fixed_is_a_word(v, 0);
    lemma_fixed_is_a_word(v, 1);
    lemma_joined_word(dec(n), seq!['B']);
    lemma_joined_word(fixed(v, 0), seq![suffix(i)]);
    lemma_joined_word(fixed(v, 1), seq![suffix(i)]);
}

proof fn lemma_rate_is_a_word(v: Binary64)
    ensures
        is_word(rate_text(v)),
{
    let n = v.truncated(u64::MAX as nat);
    lemma_bytes_is_a_word(n);
    reveal_strlit("/s");
    lemma_joined_word(bytes_text(n), "/s"@);
}

// ------------------------------------------------------------------ words --

proof fn lemma_after_blank(x: Seq<char>, y: Seq<char>)
    requires
        x.len() > 0,
        blank(x.last()),
    ensures
        tokens(x + y) == tokens(x) + tokens(y),
{
    let less = x.drop_last();
    law_words_split_at_blanks(less, x.last(), y);
    law_words_split_at_blanks(less, x.last(), seq![]);
    assert(less + seq![x.last()] + y =~= x + y);
    assert(less + seq![x.last()] + Seq::<char>::empty() =~= x);
    assert(tokens(Seq::<char>::empty()) =~= Seq::<Seq<char>>::empty());
    assert(tokens(less) + Seq::<Seq<char>>::empty() =~= tokens(less));
}

proof fn lemma_before_blank(x: Seq<char>, y: Seq<char>)
    requires
        y.len() > 0,
        blank(y[0]),
    ensures
        tokens(x + y) == tokens(x) + tokens(y),
{
    let less = y.skip(1);
    law_words_split_at_blanks(x, y[0], less);
    assert(x + seq![y[0]] + less =~= x + y);
    assert(tokens(y) == tokens(less));
}

proof fn lemma_no_words(gap: Seq<char>)
    requires
        forall|i: int| 0 <= i < gap.len() ==> blank(#[trigger] gap[i]),
    ensures
        tokens(gap) == Seq::<Seq<char>>::empty(),
    decreases gap.len(),
{
    if gap.len() > 0 {
        assert(blank(gap[0]));
        let less = gap.skip(1);
        assert forall|i: int| 0 <= i < less.len() implies blank(#[trigger] less[i]) by {
            assert(less[i] == gap[i + 1]);
        }
        lemma_no_words(less);
    }
}

/// One word with blanks around it.
proof fn lemma_one_word(before: Seq<char>, w: Seq<char>, after: Seq<char>)
    requires
        forall|i: int| 0 <= i < before.len() ==> blank(#[trigger] before[i]),
        forall|i: int| 0 <= i < after.len() ==> blank(#[trigger] after[i]),
        is_word(w),
    ensures
        tokens(before + w + after) == seq![w],
{
    lemma_no_words(before);
    lemma_no_words(after);
    law_a_word_is_one_word(w);
    if before.len() > 0 {
        assert(blank(before[before.len() - 1]));
        lemma_after_blank(before, w);
        assert(tokens(before + w) =~= seq![w]);
    } else {
        assert(before + w =~= w);
    }
    if after.len() > 0 {
        assert(blank(after[0]));
        lemma_before_blank(before + w, after);
        assert(tokens(before + w + after) =~= seq![w]);
    } else {
        assert(before + w + after =~= before + w);
    }
}

proof fn lemma_right(w: Seq<char>, n: nat)
    requires
        is_word(w),
    ensures
        tokens(right_in(w, n)) == seq![w],
        right_in(w, n).len() > 0,
{
    if w.len() < n {
        let pad = spaces((n - w.len()) as nat);
        lemma_one_word(pad, w, seq![]);
        assert(pad + w + Seq::<char>::empty() =~= right_in(w, n));
    } else {
        law_a_word_is_one_word(w);
    }
}

proof fn lemma_right_with(w: Seq<char>, n: nat, more: Seq<char>)
    requires
        is_word(w),
        forall|i: int| 0 <= i < more.len() ==> !blank(#[trigger] more[i]),
    ensures
        tokens(right_in(w, n) + more) == seq![w + more],
{
    lemma_joined_word(w, more);
    if w.len() < n {
        let pad = spaces((n - w.len()) as nat);
        lemma_one_word(pad, w + more, seq![]);
        assert(pad + (w + more) + Seq::<char>::empty() =~= right_in(w, n) + more);
    } else {
        law_a_word_is_one_word(w + more);
    }
}

/// A name at the left of its column, followed by a space.
proof fn lemma_left(s: Seq<char>, n: nat)
    ensures
        tokens(left_in(s, n) + seq![' ']) == tokens(s),
{
    let pad = if s.len() < n {
        spaces((n - s.len()) as nat)
    } else {
        seq![]
    };
    let gap = pad + seq![' '];
    assert forall|i: int| 0 <= i < gap.len() implies blank(#[trigger] gap[i]) by {}
    lemma_no_words(gap);
    lemma_before_blank(s, gap);
    assert(left_in(s, n) + seq![' '] =~= s + gap);
    assert(tokens(s) + Seq::<Seq<char>>::empty() =~= tokens(s));
}

// ---------------------------------------------------------- process table --

/// The words of a row are, in order: PID, parent, CPU, resident size, threads,
/// what is read from disk, what is written to it, and the name. A zombie is
/// marked as one. A rate that is not known is a dash.
pub proof fn law_the_words_of_a_row(p: ProcRateView)
    ensures
        tokens(row(p)) == seq![
            dec_int(p.pid as int),
            dec_int(p.ppid as int),
            fixed(p.cpu_pct, 1),
            bytes_text(p.rss_bytes as nat),
            dec_int(p.threads as int),
            if p.read_bps is Some {
                rate_text(p.read_bps->0)
            } else {
                seq!['-']
            },
            if p.write_bps is Some {
                rate_text(p.write_bps->0)
            } else {
                seq!['-']
            },
        ] + tokens(p.comm) + if p.state == 'Z' {
            seq!["<zombie>"@]
        } else {
            seq![]
        },
        row(p).last() == '\n',
{
    reveal_strlit(" ");
    reveal_strlit("  ");
    reveal_strlit("-");
    reveal_strlit("\n");
    reveal_strlit("");
    reveal_strlit(" <zombie>");
    reveal_strlit("<zombie>");
    assert("-"@ =~= seq!['-']);
    assert(" "@ =~= seq![' ']);
    let r = disk_text(p.read_bps);
    let w = disk_text(p.write_bps);
    assert(is_word(r)) by {
        if p.read_bps is Some {
            lemma_rate_is_a_word(p.read_bps->0);
        }
    }
    assert(is_word(w)) by {
        if p.write_bps is Some {
            lemma_rate_is_a_word(p.write_bps->0);
        }
    }
    lemma_dec_int_is_a_word(p.pid as int);
    lemma_dec_int_is_a_word(p.ppid as int);
    lemma_dec_int_is_a_word(p.threads as int);
    lemma_fixed_is_a_word(p.cpu_pct, 1);
    lemma_bytes_is_a_word(p.rss_bytes as nat);
    let x0 = right_in(dec_int(p.pid as int), 7);
    let c1 = right_in(dec_int(p.ppid as int), 7);
    let c2 = right_in(fixed(p.cpu_pct, 1), 6);
    let c3 = right_in(bytes_text(p.rss_bytes as nat), 9);
    let c4 = right_in(dec_int(p.threads as int), 3);
    let c5 = right_in(r, 10);
    let c6 = right_in(w, 10);
    lemma_right(dec_int(p.pid as int), 7);
    lemma_right(dec_int(p.ppid as int), 7);
    lemma_right(fixed(p.cpu_pct, 1), 6);
    lemma_right(bytes_text(p.rss_bytes as nat), 9);
    lemma_right(dec_int(p.threads as int), 3);
    lemma_right(r, 10);
    lemma_right(w, 10);
    let x1 = x0 + " "@ + c1;
    let x2 = x1 + " "@ + c2;
    let x3 = x2 + " "@ + c3;
    let x4 = x3 + " "@ + c4;
    let x5 = x4 + " "@ + c5;
    let x6 = x5 + " "@ + c6;
    law_words_split_at_blanks(x0, ' ', c1);
    law_words_split_at_blanks(x1, ' ', c2);
    law_words_split_at_blanks(x2, ' ', c3);
    law_words_split_at_blanks(x3, ' ', c4);
    law_words_split_at_blanks(x4, ' ', c5);
    law_words_split_at_blanks(x5, ' ', c6);
    let z = if p.state == 'Z' {
        " <zombie>"@
    } else {
        ""@
    };
    let marks = if p.state == 'Z' {
        seq!["<zombie>"@]
    } else {
        Seq::<Seq<char>>::empty()
    };
    lemma_row_end(x6, p.comm, z, marks);
    let words = seq![
        dec_int(p.pid as int),
        dec_int(p.ppid as int),
        fixed(p.cpu_pct, 1),
        bytes_text(p.rss_bytes as nat),
        dec_int(p.threads as int),
        r,
        w,
    ];
    assert(tokens(x6) =~= words);
}

proof fn lemma_row_end(x: Seq<char>, comm: Seq<char>, z: Seq<char>, marks: Seq<Seq<char>>)
    requires
        z == " <zombie>"@ && marks == seq!["<zombie>"@] || z == ""@ && marks == Seq::<Seq<char>>::empty(),
    ensures
        tokens(x + "  "@ + comm + z + "\n"@) == tokens(x) + tokens(comm) + marks,
        (x + "  "@ + comm + z + "\n"@).last() == '\n',
{
    reveal_strlit("  ");
    reveal_strlit("\n");
    reveal_strlit("");
    reveal_strlit(" <zombie>");
    reveal_strlit("<zombie>");
    let y = x + "  "@;
    let none = Seq::<Seq<char>>::empty();
    lemma_no_words("  "@);
    lemma_no_words("\n"@);
    lemma_before_blank(x, "  "@);
    assert(tokens(x) + none =~= tokens(x));
    lemma_after_blank(y, comm);
    let all = y + comm + z;
    lemma_before_blank(all, "\n"@);
    if z == " <zombie>"@ && marks.len() == 1 {
        lemma_before_blank(y + comm, z);
        assert(is_word("<zombie>"@));
        lemma_one_word(seq![' '], "<zombie>"@, seq![]);
        assert(seq![' '] + "<zombie>"@ + Seq::<char>::empty() =~= " <zombie>"@);
    } else {
        assert(all =~= y + comm);
    }
    assert(tokens(all + "\n"@) =~= tokens(x) + tokens(comm) + marks);
}

/// The head of the table names the columns.
pub proof fn law_the_head_names_the_columns()
    ensures
        tokens(table_head()) == seq![
            "PID"@,
            "PPID"@,
            "CPU%"@,
            "RSS"@,
            "TH"@,
            "DISK"@,
            "R"@,
            "DISK"@,
            "W"@,
            "COMMAND"@,
        ],
{
    reveal_strlit("\n");
    reveal_strlit(" ");
    reveal_strlit("  ");
    reveal_strlit("PID");
    reveal_strlit("PPID");
    reveal_strlit("CPU%");
    reveal_strlit("RSS");
    reveal_strlit("TH");
    reveal_strlit("DISK R");
    reveal_strlit("DISK W");
    reveal_strlit("DISK");
    reveal_strlit("R");
    reveal_strlit("W");
    reveal_strlit("COMMAND");
    assert(" "@ =~= seq![' ']);
    let x0 = "\n"@ + right_in("PID"@, 7);
    lemma_right("PID"@, 7);
    lemma_right("PPID"@, 7);
    lemma_right("CPU%"@, 6);
    lemma_right("RSS"@, 9);
    lemma_right("TH"@, 3);
    lemma_no_words("\n"@);
    lemma_after_blank("\n"@, right_in("PID"@, 7));
    let x1 = x0 + " "@ + right_in("PPID"@, 7);
    let x2 = x1 + " "@ + right_in("CPU%"@, 6);
    let x3 = x2 + " "@ + right_in("RSS"@, 9);
    let x4 = x3 + " "@ + right_in("TH"@, 3);
    let x5 = x4 + " "@ + right_in("DISK R"@, 10);
    let x6 = x5 + " "@ + right_in("DISK W"@, 10);
    law_words_split_at_blanks(x0, ' ', right_in("PPID"@, 7));
    law_words_split_at_blanks(x1, ' ', right_in("CPU%"@, 6));
    law_words_split_at_blanks(x2, ' ', right_in("RSS"@, 9));
    law_words_split_at_blanks(x3, ' ', right_in("TH"@, 3));
    law_words_split_at_blanks(x4, ' ', right_in("DISK R"@, 10));
    law_words_split_at_blanks(x5, ' ', right_in("DISK W"@, 10));
    assert("DISK R"@ =~= "DISK"@ + seq![' '] + "R"@);
    assert("DISK W"@ =~= "DISK"@ + seq![' '] + "W"@);
    lemma_two_words("DISK R"@, "DISK"@, "R"@, 10);
    lemma_two_words("DISK W"@, "DISK"@, "W"@, 10);
    lemma_row_end(x6, "COMMAND"@, ""@, seq![]);
    law_a_word_is_one_word("COMMAND"@);
    reveal_strlit("");
    assert(table_head() =~= x6 + "  "@ + "COMMAND"@ + ""@ + "\n"@);
    assert(tokens(table_head()) =~= seq![
        "PID"@,
        "PPID"@,
        "CPU%"@,
        "RSS"@,
        "TH"@,
        "DISK"@,
        "R"@,
        "DISK"@,
        "W"@,
        "COMMAND"@,
    ]);
}

proof fn lemma_two_words(s: Seq<char>, a: Seq<char>, b: Seq<char>, n: nat)
    requires
        s == a + seq![' '] + b,
        is_word(a),
        is_word(b),
    ensures
        tokens(right_in(s, n)) == seq![a, b],
{
    law_a_word_is_one_word(b);
    let pad = if s.len() < n {
        spaces((n - s.len()) as nat)
    } else {
        seq![]
    };
    lemma_one_word(pad, a, seq![]);
    assert(pad + a + Seq::<char>::empty() =~= pad + a);
    law_words_split_at_blanks(pad + a, ' ', b);
    assert(pad + a + seq![' '] + b =~= right_in(s, n));
    assert(seq![a] + seq![b] =~= seq![a, b]);
}

/// Where every field fits its column the columns line up: the name begins where
/// the heading of the names does.
pub proof fn law_columns_line_up(p: ProcRateView)
    requires
        dec_int(p.pid as int).len() <= 7,
        dec_int(p.ppid as int).len() <= 7,
        fixed(p.cpu_pct, 1).len() <= 6,
        bytes_text(p.rss_bytes as nat).len() <= 9,
        dec_int(p.threads as int).len() <= 3,
        p.read_bps is Some ==> rate_text(p.read_bps->0).len() <= 10,
        p.write_bps is Some ==> rate_text(p.write_bps->0).len() <= 10,
    ensures
        row(p).subrange(60, 60int + p.comm.len()) == p.comm,
        table_head().subrange(61, 68) == "COMMAND"@,
{
    reveal_strlit(" ");
    reveal_strlit("  ");
    reveal_strlit("-");
    reveal_strlit("\n");
    reveal_strlit("PID");
    reveal_strlit("PPID");
    reveal_strlit("CPU%");
    reveal_strlit("RSS");
    reveal_strlit("TH");
    reveal_strlit("DISK R");
    reveal_strlit("DISK W");
    reveal_strlit("COMMAND");
    assert(row(p).subrange(60, 60int + p.comm.len()) =~= p.comm);
    assert(table_head().subrange(61, 68) =~= "COMMAND"@);
}

// ------------------------------------------------------------- head lines --

/// The words of a text.
#[verifier::opaque]
spec fn words(s: Seq<char>) -> Seq<Seq<char>> {
    tokens(s)
}

proof fn lemma_words_are_tokens(s: Seq<char>)
    ensures
        words(s) == tokens(s),
{
    reveal(words);
}

/// Whether a literal goes on from a field: what is glued to it comes first, then
/// blanks and words, and blanks at the end.
#[verifier::opaque]
spec fn goes_on(lit: Seq<char>, glue: Seq<char>, more: Seq<Seq<char>>) -> bool {
    &&& lit.len() > glue.len()
    &&& lit.take(glue.len() as int) == glue
    &&& blank(lit[glue.len() as int])
    &&& blank(lit.last())
    &&& tokens(lit.skip(glue.len() as int)) == more
}

/// A chunk of a line: what stood before ends in a blank, a field comes, and then
/// a literal that goes on from it.
proof fn lemma_chunk(x: Seq<char>, r: Seq<char>, lit: Seq<char>, glue: Seq<char>, w: Seq<char>, more: Seq<Seq<char>>)
    requires
        goes_on(lit, glue, more),
        x.len() > 0,
        blank(x.last()),
        words(r + glue) == seq![w],
    ensures
        words(x + r + lit) == words(x) + (seq![w] + more),
        (x + r + lit).len() > 0,
        blank((x + r + lit).last()),
{
    reveal(words);
    reveal(goes_on);
    let tail = lit.skip(glue.len() as int);
    lemma_after_blank(x, r + glue);
    lemma_before_blank(x + (r + glue), tail);
    assert(lit =~= glue + tail);
    assert(x + r + lit =~= x + (r + glue) + tail);
    assert(tokens(x) + seq![w] + more =~= tokens(x) + (seq![w] + more));
}

proof fn lemma_plain(w: Seq<char>, glue: Seq<char>)
    requires
        is_word(w),
        forall|i: int| 0 <= i < glue.len() ==> !blank(#[trigger] glue[i]),
    ensures
        words(w + glue) == seq![w + glue],
{
    reveal(words);
    lemma_joined_word(w, glue);
    law_a_word_is_one_word(w + glue);
}

proof fn lemma_to_the_right(w: Seq<char>, n: nat, glue: Seq<char>)
    requires
        is_word(w),
        forall|i: int| 0 <= i < glue.len() ==> !blank(#[trigger] glue[i]),
    ensures
        words(right_in(w, n) + glue) == seq![w + glue],
{
    reveal(words);
    lemma_right_with(w, n, glue);
}

/// A literal of glue, one word with blanks around it.
proof fn lemma_goes_on(lit: Seq<char>, glue: Seq<char>, before: Seq<char>, w: Seq<char>, after: Seq<char>)
    requires
        lit == glue + before + w + after,
        before.len() > 0,
        after.len() > 0,
        forall|i: int| 0 <= i < before.len() ==> blank(#[trigger] before[i]),
        forall|i: int| 0 <= i < after.len() ==> blank(#[trigger] after[i]),
        is_word(w),
    ensures
        goes_on(lit, glue, seq![w]),
{
    reveal(goes_on);
    lemma_one_word(before, w, after);
    assert(lit.take(glue.len() as int) =~= glue);
    assert(lit.skip(glue.len() as int) =~= before + w + after);
    assert(blank(before[0]));
    assert(blank(after[after.len() - 1]));
}

/// A literal of glue and blanks.
proof fn lemma_ends_so(lit: Seq<char>, glue: Seq<char>, after: Seq<char>)
    requires
        lit == glue + after,
        after.len() > 0,
        forall|i: int| 0 <= i < after.len() ==> blank(#[trigger] after[i]),
    ensures
        goes_on(lit, glue, seq![]),
{
    reveal(goes_on);
    lemma_no_words(after);
    assert(lit.take(glue.len() as int) =~= glue);
    assert(lit.skip(glue.len() as int) =~= after);
    assert(blank(after[0]));
    assert(blank(after[after.len() - 1]));
}

proof fn lemma_headline_literals()
    ensures
        words("vitals   cpu "@) == seq!["vitals"@, "cpu"@],
        "vitals   cpu "@.len() > 0,
        blank("vitals   cpu "@.last()),
        goes_on("%  mem "@, seq!['%'], seq!["mem"@]),
        goes_on(seq!['%', ' '], seq!['%'], seq![]),
        goes_on(" / "@, seq![], seq![seq!['/']]),
        goes_on(")  net rx "@, seq![')'], seq!["net"@, "rx"@]),
        goes_on(" tx "@, seq![], seq!["tx"@]),
        goes_on("\n"@, seq![], seq![]),
        "% ("@ == seq!['%', ' '] + seq!['('],
{
    reveal_strlit("vitals   cpu ");
    reveal_strlit("%  mem ");
    reveal_strlit("% (");
    reveal_strlit(" / ");
    reveal_strlit(")  net rx ");
    reveal_strlit(" tx ");
    reveal_strlit("\n");
    reveal_strlit("vitals");
    reveal_strlit("cpu");
    reveal_strlit("mem");
    reveal_strlit("net");
    reveal_strlit("rx");
    reveal_strlit("tx");
    assert(words("vitals   cpu "@) == seq!["vitals"@, "cpu"@]) by {
        reveal(words);
        law_a_word_is_one_word("vitals"@);
        lemma_one_word(seq![' ', ' ', ' '], "cpu"@, seq![' ']);
        lemma_before_blank("vitals"@, seq![' ', ' ', ' '] + "cpu"@ + seq![' ']);
        assert("vitals"@ + (seq![' ', ' ', ' '] + "cpu"@ + seq![' ']) =~= "vitals   cpu "@);
        assert(seq!["vitals"@] + seq!["cpu"@] =~= seq!["vitals"@, "cpu"@]);
    }
    let e = Seq::<char>::empty();
    assert("%  mem "@ =~= seq!['%'] + seq![' ', ' '] + "mem"@ + seq![' ']);
    lemma_goes_on("%  mem "@, seq!['%'], seq![' ', ' '], "mem"@, seq![' ']);
    assert(seq!['%', ' '] =~= seq!['%'] + seq![' ']);
    lemma_ends_so(seq!['%', ' '], seq!['%'], seq![' ']);
    assert(" / "@ =~= e + seq![' '] + seq!['/'] + seq![' ']);
    lemma_goes_on(" / "@, e, seq![' '], seq!['/'], seq![' ']);
    assert(goes_on(")  net rx "@, seq![')'], seq!["net"@, "rx"@])) by {
        reveal(goes_on);
        let lit = ")  net rx "@;
        let first = seq![' ', ' '] + "net"@ + seq![' '];
        lemma_one_word(seq![' ', ' '], "net"@, seq![' ']);
        lemma_one_word(e, "rx"@, seq![' ']);
        assert(e + "rx"@ + seq![' '] =~= "rx"@ + seq![' ']);
        lemma_after_blank(first, "rx"@ + seq![' ']);
        assert(first + ("rx"@ + seq![' ']) =~= lit.skip(1));
        assert(lit.take(1) =~= seq![')']);
        assert(seq!["net"@] + seq!["rx"@] =~= seq!["net"@, "rx"@]);
    }
    assert(" tx "@ =~= e + seq![' '] + "tx"@ + seq![' ']);
    lemma_goes_on(" tx "@, e, seq![' '], "tx"@, seq![' ']);
    assert("\n"@ =~= e + seq!['\n']);
    lemma_ends_so("\n"@, e, seq!['\n']);
    assert("% ("@ =~= seq!['%', ' '] + seq!['(']);
}

proof fn lemma_headline_words(
    f1: Seq<char>,
    f2: Seq<char>,
    b1: Seq<char>,
    b2: Seq<char>,
    r1: Seq<char>,
    r2: Seq<char>,
)
    requires
        is_word(f1),
        is_word(f2),
        is_word(b1),
        is_word(b2),
        is_word(r1),
        is_word(r2),
    ensures
        words(
            "vitals   cpu "@ + right_in(f1, 5) + "%  mem "@ + right_in(f2, 5) + "% ("@ + b1 + " / "@ + b2
                + ")  net rx "@ + right_in(r1, 9) + " tx "@ + right_in(r2, 9) + "\n"@,
        ) == seq![
            "vitals"@,
            "cpu"@,
            f1 + seq!['%'],
            "mem"@,
            f2 + seq!['%'],
            seq!['('] + b1,
            seq!['/'],
            b2 + seq![')'],
            "net"@,
            "rx"@,
            r1,
            "tx"@,
            r2,
        ],
{
    lemma_headline_literals();
    let e = Seq::<char>::empty();
    let x0 = "vitals   cpu "@;
    let x1 = x0 + right_in(f1, 5) + "%  mem "@;
    lemma_to_the_right(f1, 5, seq!['%']);
    lemma_chunk(x0, right_in(f1, 5), "%  mem "@, seq!['%'], f1 + seq!['%'], seq!["mem"@]);
    let x2 = x1 + right_in(f2, 5) + seq!['%', ' '];
    lemma_to_the_right(f2, 5, seq!['%']);
    lemma_chunk(x1, right_in(f2, 5), seq!['%', ' '], seq!['%'], f2 + seq!['%'], seq![]);
    let x3 = x2 + (seq!['('] + b1) + " / "@;
    lemma_plain(seq!['('], b1);
    assert(seq!['('] + b1 + e =~= seq!['('] + b1);
    lemma_chunk(x2, seq!['('] + b1, " / "@, e, seq!['('] + b1, seq![seq!['/']]);
    let x4 = x3 + b2 + ")  net rx "@;
    lemma_plain(b2, seq![')']);
    lemma_chunk(x3, b2, ")  net rx "@, seq![')'], b2 + seq![')'], seq!["net"@, "rx"@]);
    let x5 = x4 + right_in(r1, 9) + " tx "@;
    lemma_to_the_right(r1, 9, e);
    assert(r1 + e =~= r1);
    lemma_chunk(x4, right_in(r1, 9), " tx "@, e, r1, seq!["tx"@]);
    let x6 = x5 + right_in(r2, 9) + "\n"@;
    lemma_to_the_right(r2, 9, e);
    assert(r2 + e =~= r2);
    lemma_chunk(x5, right_in(r2, 9), "\n"@, e, r2, seq![]);
    let y = x1 + right_in(f2, 5);
    assert(y + "% ("@ + b1 =~= x2 + (seq!['('] + b1));
    assert(words(x6) =~= seq![
        "vitals"@,
        "cpu"@,
        f1 + seq!['%'],
        "mem"@,
        f2 + seq!['%'],
        seq!['('] + b1,
        seq!['/'],
        b2 + seq![')'],
        "net"@,
        "rx"@,
        r1,
        "tx"@,
        r2,
    ]);
}

/// The words of the first line: CPU, memory in percent, used and in all, and what
/// the network receives and sends.
pub proof fn law_the_words_of_the_first_line(sys: SystemRateView)
    ensures
        tokens(headline(sys)) == seq![
            "vitals"@,
            "cpu"@,
            fixed(sys.cpu_pct, 1) + seq!['%'],
            "mem"@,
            fixed(sys.mem.used_percent(), 1) + seq!['%'],
            seq!['('] + bytes_text(sys.mem.used_bytes()),
            seq!['/'],
            bytes_text(sys.mem.total as nat) + seq![')'],
            "net"@,
            "rx"@,
            rate_text(sys.net_rx_bps),
            "tx"@,
            rate_text(sys.net_tx_bps),
        ],
{
    lemma_fixed_is_a_word(sys.cpu_pct, 1);
    lemma_fixed_is_a_word(sys.mem.used_percent(), 1);
    lemma_bytes_is_a_word(sys.mem.used_bytes());
    lemma_bytes_is_a_word(sys.mem.total as nat);
    lemma_rate_is_a_word(sys.net_rx_bps);
    lemma_rate_is_a_word(sys.net_tx_bps);
    lemma_headline_words(
        fixed(sys.cpu_pct, 1),
        fixed(sys.mem.used_percent(), 1),
        bytes_text(sys.mem.used_bytes()),
        bytes_text(sys.mem.total as nat),
        rate_text(sys.net_rx_bps),
        rate_text(sys.net_tx_bps),
    );
    lemma_words_are_tokens(headline(sys));
}

proof fn lemma_counts_literals()
    ensures
        words("procs "@) == seq!["procs"@],
        "procs "@.len() > 0,
        blank("procs "@.last()),
        goes_on("  running "@, Seq::<char>::empty(), seq!["running"@]),
        goes_on("  blocked "@, Seq::<char>::empty(), seq!["blocked"@]),
        goes_on("  ctxsw "@, Seq::<char>::empty(), seq!["ctxsw"@]),
        goes_on("/s  vanished "@, "/s"@, seq!["vanished"@]),
        goes_on("  scan "@, Seq::<char>::empty(), seq!["scan"@]),
        goes_on("ms  interval "@, "ms"@, seq!["interval"@]),
        goes_on("ms\n"@, "ms"@, seq![]),
        forall|i: int| 0 <= i < "/s"@.len() ==> !blank(#[trigger] "/s"@[i]),
        forall|i: int| 0 <= i < "ms"@.len() ==> !blank(#[trigger] "ms"@[i]),
{
    reveal_strlit("procs ");
    reveal_strlit("  running ");
    reveal_strlit("  blocked ");
    reveal_strlit("  ctxsw ");
    reveal_strlit("/s  vanished ");
    reveal_strlit("  scan ");
    reveal_strlit("ms  interval ");
    reveal_strlit("ms\n");
    reveal_strlit("procs");
    reveal_strlit("running");
    reveal_strlit("blocked");
    reveal_strlit("ctxsw");
    reveal_strlit("vanished");
    reveal_strlit("scan");
    reveal_strlit("interval");
    reveal_strlit("/s");
    reveal_strlit("ms");
    let e = Seq::<char>::empty();
    assert(words("procs "@) == seq!["procs"@]) by {
        reveal(words);
        lemma_one_word(e, "procs"@, seq![' ']);
        assert(e + "procs"@ + seq![' '] =~= "procs "@);
    }
    assert("  running "@ =~= Seq::<char>::empty() + seq![' ', ' '] + "running"@ + seq![' ']);
    lemma_goes_on("  running "@, Seq::<char>::empty(), seq![' ', ' '], "running"@, seq![' ']);
    assert("  blocked "@ =~= Seq::<char>::empty() + seq![' ', ' '] + "blocked"@ + seq![' ']);
    lemma_goes_on("  blocked "@, Seq::<char>::empty(), seq![' ', ' '], "blocked"@, seq![' ']);
    assert("  ctxsw "@ =~= Seq::<char>::empty() + seq![' ', ' '] + "ctxsw"@ + seq![' ']);
    lemma_goes_on("  ctxsw "@, Seq::<char>::empty(), seq![' ', ' '], "ctxsw"@, seq![' ']);
    assert("/s  vanished "@ =~= "/s"@ + seq![' ', ' '] + "vanished"@ + seq![' ']);
    lemma_goes_on("/s  vanished "@, "/s"@, seq![' ', ' '], "vanished"@, seq![' ']);
    assert("  scan "@ =~= Seq::<char>::empty() + seq![' ', ' '] + "scan"@ + seq![' ']);
    lemma_goes_on("  scan "@, Seq::<char>::empty(), seq![' ', ' '], "scan"@, seq![' ']);
    assert("ms  interval "@ =~= "ms"@ + seq![' ', ' '] + "interval"@ + seq![' ']);
    lemma_goes_on("ms  interval "@, "ms"@, seq![' ', ' '], "interval"@, seq![' ']);
    assert("ms\n"@ =~= "ms"@ + seq!['\n']);
    lemma_ends_so("ms\n"@, "ms"@, seq!['\n']);
}

proof fn lemma_counts_words(
    n: Seq<char>,
    r: Seq<char>,
    b: Seq<char>,
    c: Seq<char>,
    d: Seq<char>,
    t: Seq<char>,
    i: Seq<char>,
)
    requires
        is_word(n),
        is_word(r),
        is_word(b),
        is_word(c),
        is_word(d),
        is_word(t),
        is_word(i),
    ensures
        words(
            "procs "@ + n + "  running "@ + r + "  blocked "@ + b + "  ctxsw "@ + c + "/s  vanished "@ + d + "  scan "@ + t + "ms  interval "@ + i + "ms\n"@,
        ) == seq![
            "procs"@,
            n,
            "running"@,
            r,
            "blocked"@,
            b,
            "ctxsw"@,
            c + "/s"@,
            "vanished"@,
            d,
            "scan"@,
            t + "ms"@,
            "interval"@,
            i + "ms"@,
        ],
{
    lemma_counts_literals();
    let e = Seq::<char>::empty();
    let x0 = "procs "@;
    let x1 = x0 + n + "  running "@;
    lemma_plain(n, Seq::<char>::empty());
    assert(n + e =~= n);
    lemma_chunk(x0, n, "  running "@, Seq::<char>::empty(), n, seq!["running"@]);
    let x2 = x1 + r + "  blocked "@;
    lemma_plain(r, Seq::<char>::empty());
    assert(r + e =~= r);
    lemma_chunk(x1, r, "  blocked "@, Seq::<char>::empty(), r, seq!["blocked"@]);
    let x3 = x2 + b + "  ctxsw "@;
    lemma_plain(b, Seq::<char>::empty());
    assert(b + e =~= b);
    lemma_chunk(x2, b, "  ctxsw "@, Seq::<char>::empty(), b, seq!["ctxsw"@]);
    let x4 = x3 + c + "/s  vanished "@;
    lemma_plain(c, "/s"@);
    lemma_chunk(x3, c, "/s  vanished "@, "/s"@, c + "/s"@, seq!["vanished"@]);
    let x5 = x4 + d + "  scan "@;
    lemma_plain(d, Seq::<char>::empty());
    assert(d + e =~= d);
    lemma_chunk(x4, d, "  scan "@, Seq::<char>::empty(), d, seq!["scan"@]);
    let x6 = x5 + t + "ms  interval "@;
    lemma_plain(t, "ms"@);
    lemma_chunk(x5, t, "ms  interval "@, "ms"@, t + "ms"@, seq!["interval"@]);
    let x7 = x6 + i + "ms\n"@;
    lemma_plain(i, "ms"@);
    lemma_chunk(x6, i, "ms\n"@, "ms"@, i + "ms"@, seq![]);
    assert(words(x7) =~= seq![
        "procs"@,
        n,
        "running"@,
        r,
        "blocked"@,
        b,
        "ctxsw"@,
        c + "/s"@,
        "vanished"@,
        d,
        "scan"@,
        t + "ms"@,
        "interval"@,
        i + "ms"@,
    ]);
}

/// The words of the line of counts, each count behind what it counts.
#[verifier::rlimit(80)]
pub proof fn law_the_words_of_the_counts(sys: SystemRateView)
    ensures
        tokens(counts_line(sys)) == seq![
            "procs"@,
            dec(sys.proc_count as nat),
            "running"@,
            dec(sys.procs_running as nat),
            "blocked"@,
            dec(sys.procs_blocked as nat),
            "ctxsw"@,
            fixed(sys.ctxt_per_sec, 0) + "/s"@,
            "vanished"@,
            dec(sys.vanished as nat),
            "scan"@,
            fixed(millis(sys.scan_time), 1) + "ms"@,
            "interval"@,
            fixed(millis(sys.interval), 0) + "ms"@,
        ],
{
    assert(is_word(dec(sys.proc_count as nat))) by {
        lemma_dec_is_a_word(sys.proc_count as nat);
    }
    assert(is_word(dec(sys.procs_running as nat))) by {
        lemma_dec_is_a_word(sys.procs_running as nat);
    }
    assert(is_word(dec(sys.procs_blocked as nat))) by {
        lemma_dec_is_a_word(sys.procs_blocked as nat);
    }
    assert(is_word(fixed(sys.ctxt_per_sec, 0))) by {
        lemma_fixed_is_a_word(sys.ctxt_per_sec, 0);
    }
    assert(is_word(dec(sys.vanished as nat))) by {
        lemma_dec_is_a_word(sys.vanished as nat);
    }
    assert(is_word(fixed(millis(sys.scan_time), 1))) by {
        lemma_fixed_is_a_word(millis(sys.scan_time), 1);
    }
    assert(is_word(fixed(millis(sys.interval), 0))) by {
        lemma_fixed_is_a_word(millis(sys.interval), 0);
    }
    lemma_counts_words(
        dec(sys.proc_count as nat),
        dec(sys.procs_running as nat),
        dec(sys.procs_blocked as nat),
        fixed(sys.ctxt_per_sec, 0),
        dec(sys.vanished as nat),
        fixed(millis(sys.scan_time), 1),
        fixed(millis(sys.interval), 0),
    );
    lemma_words_are_tokens(counts_line(sys));
}

/// The cores have a line where there is more than one. It gives each its number,
/// from zero on, and its share: with one core more the line goes on with that
/// core, and what stood there stays.
pub proof fn law_each_core_has_its_cell(pcts: Seq<Binary64>, x: Binary64)
    ensures
        pcts.len() <= 1 ==> cores_line(pcts).len() == 0,
        pcts.len() > 1 ==> cores_line(pcts.push(x)) == cores_line(pcts).drop_last() + dec(pcts.len()) + seq![
            ':',
        ] + right_in(fixed(x, 0), 3) + seq!['%', ' ', '\n'],
        pcts.len() == 2 ==> cores_line(pcts) == "cores    "@ + seq!['0', ':'] + right_in(fixed(pcts[0], 0), 3)
            + seq!['%', ' ', '1', ':'] + right_in(fixed(pcts[1], 0), 3) + seq!['%', ' ', '\n'],
{
    reveal_strlit(":");
    reveal_strlit("% ");
    reveal_strlit("\n");
    if pcts.len() > 1 {
        let more = pcts.push(x);
        assert(more.drop_last() =~= pcts);
        assert(cores_line(more) =~= cores_line(pcts).drop_last() + dec(pcts.len()) + seq![':'] + right_in(
            fixed(x, 0),
            3,
        ) + seq!['%', ' ', '\n']);
    }
    if pcts.len() == 2 {
        let one = pcts.drop_last();
        let none = one.drop_last();
        assert(one.last() == pcts[0] && pcts.last() == pcts[1]);
        assert(core_cells(none) =~= Seq::<char>::empty());
        assert(dec(0) =~= seq!['0']);
        assert(dec(1) =~= seq!['1']);
        let a = right_in(fixed(pcts[0], 0), 3);
        assert(core_cells(one) =~= seq!['0', ':'] + a + seq!['%', ' ']);
        assert(cores_line(pcts) =~= "cores    "@ + seq!['0', ':'] + a + seq!['%', ' ', '1', ':'] + right_in(
            fixed(pcts[1], 0),
            3,
        ) + seq!['%', ' ', '\n']);
    }
}

// ----------------------------------------------------- alerts and events --

proof fn lemma_alert_literals()
    ensures
        words("  ! "@) == seq![seq!['!']],
        "  ! "@.len() > 0,
        blank("  ! "@.last()),
        " "@ == seq![' '],
        " firing "@ == seq![' '] + "firing "@,
        words("firing "@) == seq!["firing"@],
        blank("firing "@.last()),
        "firing "@.len() > 0,
        goes_on("s\n"@, seq!['s'], seq![]),
{
    reveal_strlit("  ! ");
    reveal_strlit(" ");
    reveal_strlit(" firing ");
    reveal_strlit("firing ");
    reveal_strlit("firing");
    reveal_strlit("s\n");
    reveal(words);
    lemma_one_word(seq![' ', ' '], seq!['!'], seq![' ']);
    assert(seq![' ', ' '] + seq!['!'] + seq![' '] =~= "  ! "@);
    assert(" "@ =~= seq![' ']);
    assert(" firing "@ =~= seq![' '] + "firing "@);
    lemma_one_word(seq![], "firing"@, seq![' ']);
    assert(Seq::<char>::empty() + "firing"@ + seq![' '] =~= "firing "@);
    assert("s\n"@ =~= seq!['s'] + seq!['\n']);
    lemma_ends_so("s\n"@, seq!['s'], seq!['\n']);
}

/// A name in its column and a space: its words, and then a blank.
proof fn lemma_name_column(x: Seq<char>, s: Seq<char>, n: nat)
    requires
        x.len() > 0,
        blank(x.last()),
    ensures
        words(x + left_in(s, n) + seq![' ']) == words(x) + words(s),
        (x + left_in(s, n) + seq![' ']).len() > 0,
        blank((x + left_in(s, n) + seq![' ']).last()),
{
    reveal(words);
    lemma_left(s, n);
    lemma_after_blank(x, left_in(s, n) + seq![' ']);
    assert(x + (left_in(s, n) + seq![' ']) =~= x + left_in(s, n) + seq![' ']);
}

proof fn lemma_alert_words(name: Seq<char>, subject: Seq<char>, f: Seq<char>)
    requires
        is_word(f),
    ensures
        words("  ! "@ + left_in(name, 16) + " "@ + left_in(subject, 28) + " firing "@ + f + "s\n"@) == seq![
            seq!['!'],
        ] + words(name) + words(subject) + seq!["firing"@, f + seq!['s']],
{
    lemma_alert_literals();
    let x0 = "  ! "@;
    let x1 = x0 + left_in(name, 16) + seq![' '];
    lemma_name_column(x0, name, 16);
    let x2 = x1 + left_in(subject, 28) + seq![' '];
    lemma_name_column(x1, subject, 28);
    let x3 = x2 + "firing "@;
    assert(words(x3) == words(x2) + seq!["firing"@] && blank(x3.last())) by {
        reveal(words);
        lemma_after_blank(x2, "firing "@);
    }
    lemma_plain(f, seq!['s']);
    lemma_chunk(x3, f, "s\n"@, seq!['s'], f + seq!['s'], seq![]);
    assert(x1 + left_in(subject, 28) + " firing "@ =~= x3);
    assert(words(x3 + f + "s\n"@) =~= seq![seq!['!']] + words(name) + words(subject) + seq![
        "firing"@,
        f + seq!['s'],
    ]);
}

/// The words of the line of an active alert: the name of its rule, its subject,
/// and for how many seconds it is active.
pub proof fn law_the_words_of_an_alert(a: AlertView)
    ensures
        tokens(alert_line(a)) == seq![seq!['!']] + tokens(a.0) + tokens(a.1) + seq![
            "firing"@,
            fixed(secs_real(a.2.nanos as nat), 0) + seq!['s'],
        ],
{
    let f = fixed(secs_real(a.2.nanos as nat), 0);
    lemma_fixed_is_a_word(secs_real(a.2.nanos as nat), 0);
    lemma_alert_words(a.0, a.1, f);
    lemma_words_are_tokens(alert_line(a));
    lemma_words_are_tokens(a.0);
    lemma_words_are_tokens(a.1);
}

proof fn lemma_event_literals()
    ensures
        words("  "@ + "FIRED  "@ + " "@) == seq!["FIRED"@],
        words("  "@ + "CLEARED"@ + " "@) == seq!["CLEARED"@],
        words("  "@ + "GONE   "@ + " "@) == seq!["GONE"@],
        " "@ == seq![' '],
        "="@ == seq!['='],
        " (thr "@ == seq![' '] + "(thr "@,
        words("(thr "@) == seq!["(thr"@],
        goes_on(" (thr "@, seq![], seq!["(thr"@]),
        goes_on(") after "@, seq![')'], seq!["after"@]),
        goes_on("s\n"@, seq!['s'], seq![]),
{
    reveal_strlit("  ");
    reveal_strlit(" ");
    reveal_strlit("FIRED  ");
    reveal_strlit("CLEARED");
    reveal_strlit("GONE   ");
    reveal_strlit("FIRED");
    reveal_strlit("GONE");
    reveal_strlit("=");
    reveal_strlit(" (thr ");
    reveal_strlit("(thr ");
    reveal_strlit("(thr");
    reveal_strlit(") after ");
    reveal_strlit("after");
    let e = Seq::<char>::empty();
    lemma_alert_literals();
    assert("="@ =~= seq!['=']);
    assert(" (thr "@ =~= seq![' '] + "(thr "@);
    assert(" (thr "@ =~= e + seq![' '] + "(thr"@ + seq![' ']);
    lemma_goes_on(" (thr "@, e, seq![' '], "(thr"@, seq![' ']);
    assert(") after "@ =~= seq![')'] + seq![' '] + "after"@ + seq![' ']);
    lemma_goes_on(") after "@, seq![')'], seq![' '], "after"@, seq![' ']);
    reveal(words);
    lemma_one_word(e, "(thr"@, seq![' ']);
    assert(e + "(thr"@ + seq![' '] =~= "(thr "@);
    lemma_one_word(seq![' ', ' '], "FIRED"@, seq![' ', ' ', ' ']);
    assert(seq![' ', ' '] + "FIRED"@ + seq![' ', ' ', ' '] =~= "  "@ + "FIRED  "@ + " "@);
    lemma_one_word(seq![' ', ' '], "CLEARED"@, seq![' ']);
    assert(seq![' ', ' '] + "CLEARED"@ + seq![' '] =~= "  "@ + "CLEARED"@ + " "@);
    lemma_one_word(seq![' ', ' '], "GONE"@, seq![' ', ' ', ' ', ' ']);
    assert(seq![' ', ' '] + "GONE"@ + seq![' ', ' ', ' ', ' '] =~= "  "@ + "GONE   "@ + " "@);
}

proof fn lemma_event_words(
    tag: Seq<char>,
    kind: Seq<char>,
    name: Seq<char>,
    subject: Seq<char>,
    metric: Seq<char>,
    v: Seq<char>,
    t: Seq<char>,
    h: Seq<char>,
)
    requires
        words("  "@ + tag + " "@) == seq![kind],
        is_word(metric),
        is_word(v),
        is_word(t),
        is_word(h),
    ensures
        words(
            "  "@ + tag + " "@ + left_in(name, 16) + " "@ + left_in(subject, 26) + " "@ + metric + "="@ + v
                + " (thr "@ + t + ") after "@ + h + "s\n"@,
        ) == seq![kind] + words(name) + words(subject) + seq![
            metric + seq!['='] + v,
            "(thr"@,
            t + seq![')'],
            "after"@,
            h + seq!['s'],
        ],
{
    lemma_event_literals();
    let e = Seq::<char>::empty();
    let x0 = "  "@ + tag + " "@;
    assert(blank(x0.last()) && x0.len() > 0);
    let x1 = x0 + left_in(name, 16) + seq![' '];
    lemma_name_column(x0, name, 16);
    let x2 = x1 + left_in(subject, 26) + seq![' '];
    lemma_name_column(x1, subject, 26);
    let m = metric + seq!['='] + v;
    assert forall|i: int| 0 <= i < (seq!['='] + v).len() implies !blank(#[trigger] (seq!['='] + v)[i]) by {
        if i > 0 {
            assert((seq!['='] + v)[i] == v[i - 1]);
        }
    }
    lemma_joined_word(metric, seq!['='] + v);
    assert(metric + (seq!['='] + v) =~= m);
    lemma_plain(m, e);
    assert(m + e =~= m);
    let x3 = x2 + m + " (thr "@;
    lemma_chunk(x2, m, " (thr "@, e, m, seq!["(thr"@]);
    lemma_plain(t, seq![')']);
    let x4 = x3 + t + ") after "@;
    lemma_chunk(x3, t, ") after "@, seq![')'], t + seq![')'], seq!["after"@]);
    lemma_plain(h, seq!['s']);
    lemma_chunk(x4, h, "s\n"@, seq!['s'], h + seq!['s'], seq![]);
    assert(x2 + metric + "="@ + v =~= x2 + m);
    assert(words(x4 + h + "s\n"@) =~= seq![kind] + words(name) + words(subject) + seq![
        m,
        "(thr"@,
        t + seq![')'],
        "after"@,
        h + seq!['s'],
    ]);
}

/// The words of the line of an event: what happened, the name of the rule, the
/// subject, the metric with its value, the limit, and how long it had lasted.
pub proof fn law_the_words_of_an_event(e: EventView)
    ensures
        tokens(event_line(e)) == seq![
            match e.kind {
                EventKind::Fired => "FIRED"@,
                EventKind::Cleared => "CLEARED"@,
                EventKind::ClearedGone => "GONE"@,
            },
        ] + tokens(e.rule_name) + tokens(e.subject) + seq![
            e.metric.text() + seq!['='] + fixed(e.value, 1),
            "(thr"@,
            fixed(e.threshold, 1) + seq![')'],
            "after"@,
            fixed(secs_real(e.held_for.nanos as nat), 0) + seq!['s'],
        ],
{
    lemma_event_literals();
    let h = fixed(secs_real(e.held_for.nanos as nat), 0);
    assert(is_word(fixed(e.value, 1))) by {
        lemma_fixed_is_a_word(e.value, 1);
    }
    assert(is_word(fixed(e.threshold, 1))) by {
        lemma_fixed_is_a_word(e.threshold, 1);
    }
    assert(is_word(h)) by {
        lemma_fixed_is_a_word(secs_real(e.held_for.nanos as nat), 0);
    }
    assert(is_word(e.metric.text())) by {
        lemma_metric_is_a_word(e.metric);
    }
    let kind = match e.kind {
        EventKind::Fired => "FIRED"@,
        EventKind::Cleared => "CLEARED"@,
        EventKind::ClearedGone => "GONE"@,
    };
    lemma_event_words(
        tag(e.kind),
        kind,
        e.rule_name,
        e.subject,
        e.metric.text(),
        fixed(e.value, 1),
        fixed(e.threshold, 1),
        h,
    );
    lemma_words_are_tokens(event_line(e));
    lemma_words_are_tokens(e.rule_name);
    lemma_words_are_tokens(e.subject);
}

proof fn lemma_metric_is_a_word(m: Metric)
    ensures
        is_word(m.text()),
{
    reveal_strlit("cpu_pct");
    reveal_strlit("mem_pct");
    reveal_strlit("rss");
    reveal_strlit("read_bps");
    reveal_strlit("write_bps");
    reveal_strlit("net_rx_bps");
    reveal_strlit("net_tx_bps");
    reveal_strlit("threads");
    reveal_strlit("proc_count");
}

// --------------------------------------------------------------- sections --

/// Lines one after the other.
pub open spec fn stacked(ls: Seq<Seq<char>>) -> Seq<char>
    decreases ls.len(),
{
    if ls.len() == 0 {
        seq![]
    } else {
        stacked(ls.drop_last()) + ls.last()
    }
}

proof fn lemma_newest(v: Seq<EventView>, n: nat, ls: Seq<Seq<char>>)
    requires
        n <= v.len(),
        ls.len() == n,
        forall|i: int| 0 <= i < n ==> #[trigger] ls[i] == event_line(v[v.len() - 1 - i]),
    ensures
        newest_lines(v, n) == stacked(ls),
    decreases n,
{
    if n > 0 {
        let less = ls.drop_last();
        assert forall|i: int| 0 <= i < n - 1 implies #[trigger] less[i] == event_line(v[v.len() - 1 - i]) by {
            assert(less[i] == ls[i]);
        }
        lemma_newest(v, (n - 1) as nat, less);
        assert(ls[n - 1] == ls.last());
    }
}

proof fn lemma_alerts(v: Seq<AlertView>, ls: Seq<Seq<char>>)
    requires
        ls.len() == v.len(),
        forall|i: int| 0 <= i < v.len() ==> #[trigger] ls[i] == alert_line(v[i]),
    ensures
        alert_lines(v) == stacked(ls),
    decreases v.len(),
{
    if v.len() > 0 {
        let less = ls.drop_last();
        assert forall|i: int| 0 <= i < v.len() - 1 implies #[trigger] less[i] == alert_line(
            v.drop_last()[i],
        ) by {
            assert(less[i] == ls[i]);
        }
        lemma_alerts(v.drop_last(), less);
        assert(ls[v.len() - 1] == ls.last());
    }
}

proof fn lemma_rows(v: Seq<ProcRateView>, ls: Seq<Seq<char>>)
    requires
        ls.len() == v.len(),
        forall|i: int| 0 <= i < v.len() ==> #[trigger] ls[i] == row(v[i]),
    ensures
        rows(v) == stacked(ls),
    decreases v.len(),
{
    if v.len() > 0 {
        let less = ls.drop_last();
        assert forall|i: int| 0 <= i < v.len() - 1 implies #[trigger] less[i] == row(v.drop_last()[i]) by {
            assert(less[i] == ls[i]);
        }
        lemma_rows(v.drop_last(), less);
        assert(ls[v.len() - 1] == ls.last());
    }
}

/// The view from top to bottom: the first line, the sparkline unless it is plain,
/// the counts, the cores, the active alerts, the recent events, and the table.
///
/// The alerts have a section where there is one: how many there are, and the
/// lines of the first eight in order. The events have a section where there is
/// one: the lines of the last five, or of all there are, the newest first. The
/// table has the rows of the first `top` processes, or of all there are, in
/// order. `alert_rows`, `event_rows` and `table` are these lines.
pub proof fn law_the_view_from_top_to_bottom(
    snap: SnapshotView,
    history: Seq<HistoryPoint>,
    events: Seq<EventView>,
    alerts: Seq<AlertView>,
    top: nat,
    plain: bool,
    alert_rows: Seq<Seq<char>>,
    event_rows: Seq<Seq<char>>,
    table: Seq<Seq<char>>,
)
    requires
        alert_rows.len() == if alerts.len() < 8 {
            alerts.len()
        } else {
            8
        },
        forall|i: int| 0 <= i < alert_rows.len() ==> #[trigger] alert_rows[i] == alert_line(alerts[i]),
        event_rows.len() == if events.len() < 5 {
            events.len()
        } else {
            5
        },
        forall|i: int|
            0 <= i < event_rows.len() ==> #[trigger] event_rows[i] == event_line(events[events.len() - 1 - i]),
        table.len() == if snap.procs.len() < top {
            snap.procs.len()
        } else {
            top
        },
        forall|i: int| 0 <= i < table.len() ==> #[trigger] table[i] == row(snap.procs[i]),
    ensures
        text_view(snap, history, events, alerts, top, plain) == headline(snap.system) + (if plain {
            seq![]
        } else {
            "cpu 60s  "@ + spark(recent_cpu(history), of_int(100)) + seq!['\n']
        }) + counts_line(snap.system) + cores_line(snap.system.per_cpu_pct) + (if alerts.len() == 0 {
            seq![]
        } else {
            "\nACTIVE ALERTS ("@ + dec(alerts.len()) + ")\n"@ + stacked(alert_rows)
        }) + (if events.len() == 0 {
            seq![]
        } else {
            "\nRECENT EVENTS\n"@ + stacked(event_rows)
        }) + table_head() + stacked(table),
{
    reveal_strlit("\n");
    assert("\n"@ =~= seq!['\n']);
    lemma_alerts(at_most(alerts, 8), alert_rows);
    lemma_newest(events, event_rows.len(), event_rows);
    lemma_rows(at_most(snap.procs, top), table);
}

/// The newest event is always in view, right below the heading, and no event is
/// in view that is not one of the last five.
pub proof fn law_the_newest_event_is_in_view(v: Seq<EventView>, e: EventView)
    ensures
        events_part(v.push(e)).len() >= ("\nRECENT EVENTS\n"@ + event_line(e)).len(),
        events_part(v.push(e)).take(("\nRECENT EVENTS\n"@ + event_line(e)).len() as int) == "\nRECENT EVENTS\n"@
            + event_line(e),
        v.len() < 5 ==> events_part(v.push(e)).len() == "\nRECENT EVENTS\n"@.len() + event_line(e).len() + (
        events_part(v).len() - if v.len() == 0 {
            0
        } else {
            "\nRECENT EVENTS\n"@.len() as int
        }),
        v.len() >= 5 ==> events_part(v) == events_part(v.skip(v.len() - 5)),
{
    let all = v.push(e);
    let n = if all.len() < 5 {
        all.len()
    } else {
        5
    };
    let head = "\nRECENT EVENTS\n"@;
    lemma_newest_first(v, e, n);
    lemma_opening(head, written(e), newest_lines(v, (n - 1) as nat));
    reveal(written);
    if v.len() >= 5 {
        lemma_newest_of_last(v, 5);
    }
}

proof fn lemma_opening(head: Seq<char>, line: Seq<char>, rest: Seq<char>)
    ensures
        (head + (line + rest)).len() == head.len() + line.len() + rest.len(),
        (head + (line + rest)).take((head + line).len() as int) == head + line,
{
    assert((head + (line + rest)).take((head + line).len() as int) =~= head + line);
}

/// The line of an event, taken as a whole.
#[verifier::opaque]
spec fn written(e: EventView) -> Seq<char> {
    event_line(e)
}

/// The lines of the last `n` events, the newest first.
spec fn newest(v: Seq<EventView>, n: nat) -> Seq<Seq<char>> {
    Seq::new(n, |i: int| written(v[v.len() - 1 - i]))
}

proof fn lemma_newest_stacked(v: Seq<EventView>, n: nat)
    requires
        n <= v.len(),
    ensures
        newest_lines(v, n) == stacked(newest(v, n)),
{
    let ls = newest(v, n);
    assert forall|i: int| 0 <= i < n implies #[trigger] ls[i] == event_line(v[v.len() - 1 - i]) by {
        assert(ls[i] == written(v[v.len() - 1 - i]));
        reveal(written);
    }
    lemma_newest(v, n, ls);
}

proof fn lemma_stacked_front(ls: Seq<Seq<char>>)
    requires
        ls.len() > 0,
    ensures
        stacked(ls) == ls[0] + stacked(ls.skip(1)),
    decreases ls.len(),
{
    if ls.len() == 1 {
        assert(ls.drop_last() =~= Seq::<Seq<char>>::empty());
        assert(ls.skip(1) =~= Seq::<Seq<char>>::empty());
        assert(stacked(ls) =~= ls[0] + stacked(ls.skip(1)));
    } else {
        let less = ls.drop_last();
        lemma_stacked_front(less);
        assert(less.skip(1) =~= ls.skip(1).drop_last());
        assert(stacked(ls) =~= ls[0] + stacked(ls.skip(1)));
    }
}

proof fn lemma_newest_first(v: Seq<EventView>, e: EventView, n: nat)
    requires
        0 < n <= v.len() + 1,
    ensures
        newest_lines(v.push(e), n) == written(e) + newest_lines(v, (n - 1) as nat),
{
    let all = v.push(e);
    lemma_newest_stacked(all, n);
    lemma_newest_stacked(v, (n - 1) as nat);
    lemma_stacked_front(newest(all, n));
    assert(newest(all, n).skip(1) =~= newest(v, (n - 1) as nat));
}

proof fn lemma_newest_of_last(v: Seq<EventView>, n: nat)
    requires
        n <= 5 <= v.len(),
    ensures
        newest_lines(v, n) == newest_lines(v.skip(v.len() - 5), n),
{
    let last = v.skip(v.len() - 5);
    lemma_newest_stacked(v, n);
    lemma_newest_stacked(last, n);
    assert(newest(v, n) =~= newest(last, n));
}

/// The sparkline is of the last sixty values of CPU, or of all there are, the
/// newest at the end.
pub proof fn law_the_sparkline_shows_the_last_minute(history: Seq<HistoryPoint>, i: int)
    ensures
        history.len() <= 60 ==> recent_cpu(history).len() == history.len(),
        history.len() > 60 ==> recent_cpu(history).len() == 60,
        0 <= i < recent_cpu(history).len() ==> recent_cpu(history)[i] == history[history.len()
            - recent_cpu(history).len() + i].cpu_pct,
{
}

proof fn lemma_alert_columns(name: Seq<char>, subject: Seq<char>, more: Seq<char>)
    requires
        name.len() <= 16,
        subject.len() <= 28,
    ensures
        ({
            let l = "  ! "@ + left_in(name, 16) + " "@ + left_in(subject, 28) + " firing "@ + more + "s\n"@;
            &&& l.subrange(4, 4 + name.len() as int) == name
            &&& l.subrange(21, 21 + subject.len() as int) == subject
            &&& l.subrange(50, 56) == "firing"@
        }),
{
    reveal_strlit("  ! ");
    reveal_strlit(" ");
    reveal_strlit(" firing ");
    reveal_strlit("firing");
    let l = "  ! "@ + left_in(name, 16) + " "@ + left_in(subject, 28) + " firing "@ + more + "s\n"@;
    assert(l.subrange(4, 4 + name.len() as int) =~= name);
    assert(l.subrange(21, 21 + subject.len() as int) =~= subject);
    assert(l.subrange(50, 56) =~= "firing"@);
}

/// Names that fit their columns line up: the subject of an alert begins at the
/// same place in every line, and so does what follows it.
pub proof fn law_alerts_line_up(a: AlertView)
    requires
        a.0.len() <= 16,
        a.1.len() <= 28,
    ensures
        alert_line(a).subrange(4, 4 + a.0.len() as int) == a.0,
        alert_line(a).subrange(21, 21 + a.1.len() as int) == a.1,
        alert_line(a).subrange(50, 56) == "firing"@,
{
    lemma_alert_columns(a.0, a.1, fixed(secs_real(a.2.nanos as nat), 0));
}

proof fn lemma_event_columns(
    head: Seq<char>,
    name: Seq<char>,
    subject: Seq<char>,
    metric: Seq<char>,
    v: Seq<char>,
    t: Seq<char>,
    h: Seq<char>,
)
    requires
        head.len() == 7,
        name.len() <= 16,
        subject.len() <= 26,
    ensures
        ({
            let l = "  "@ + head + " "@ + left_in(name, 16) + " "@ + left_in(subject, 26) + " "@ + metric + "="@
                + v + " (thr "@ + t + ") after "@ + h + "s\n"@;
            &&& l.subrange(10, 10 + name.len() as int) == name
            &&& l.subrange(27, 27 + subject.len() as int) == subject
            &&& l.subrange(54, 54 + metric.len() as int) == metric
        }),
{
    reveal_strlit("  ");
    reveal_strlit(" ");
    let l = "  "@ + head + " "@ + left_in(name, 16) + " "@ + left_in(subject, 26) + " "@ + metric + "="@ + v
        + " (thr "@ + t + ") after "@ + h + "s\n"@;
    assert(l.subrange(10, 10 + name.len() as int) =~= name);
    assert(l.subrange(27, 27 + subject.len() as int) =~= subject);
    assert(l.subrange(54, 54 + metric.len() as int) =~= metric);
}

/// The same holds of events.
pub proof fn law_events_line_up(e: EventView)
    requires
        e.rule_name.len() <= 16,
        e.subject.len() <= 26,
    ensures
        event_line(e).subrange(10, 10 + e.rule_name.len() as int) == e.rule_name,
        event_line(e).subrange(27, 27 + e.subject.len() as int) == e.subject,
        event_line(e).subrange(54, 54 + e.metric.text().len() as int) == e.metric.text(),
{
    reveal_strlit("FIRED  ");
    reveal_strlit("CLEARED");
    reveal_strlit("GONE   ");
    lemma_event_columns(
        tag(e.kind),
        e.rule_name,
        e.subject,
        e.metric.text(),
        fixed(e.value, 1),
        fixed(e.threshold, 1),
        fixed(secs_real(e.held_for.nanos as nat), 0),
    );
}

/// A text in a column is as wide as the column, or wider where it does not fit. It
/// stands at the right or at the left, and the rest of the column is spaces.
pub proof fn law_texts_stand_in_their_columns(s: Seq<char>, w: nat, i: int)
    ensures
        s.len() >= w ==> right_in(s, w) == s && left_in(s, w) == s,
        s.len() < w ==> right_in(s, w).len() == w && right_in(s, w).skip(w - s.len()) == s,
        s.len() < w ==> left_in(s, w).len() == w && left_in(s, w).take(s.len() as int) == s,
        s.len() < w && 0 <= i < w - s.len() ==> right_in(s, w)[i] == ' ' && left_in(s, w)[s.len() + i] == ' ',
{
    if s.len() < w {
        assert(right_in(s, w).skip(w - s.len()) =~= s);
        assert(left_in(s, w).take(s.len() as int) =~= s);
    }
}

} // verus!
