//! What the readers of lines, words and `/proc` files promise.
//!
//! The laws here take a text apart again that was put together from its parts:
//! every part comes back as what it was written for, and nothing else changes.

use vstd::prelude::*;

use crate::binary64::{
    law_quarters_are_exact, law_small_products_are_exact, law_whole_numbers_are_finite, lemma_one_times, lemma_quotient_by_itself,
    lemma_whole_number_is_at_least_one, lemma_zero_over,
    of_int,
};
use crate::numbers::{
    all_digits, dec, dec_int, law_dec_reads_back, law_i32_reads_back, law_i64_reads_back, law_u64_reads_back,
    parse_i32, parse_i64, parse_u64, parse_usize, u64_or_zero, unplussed,
};
use crate::procfs::{
    cpu_times, has_key, inode_line, keyed, kib_bytes, law_names_are_verbatim, mem_size, mem_sizes, meminfo, meminfo_fits,
    net_devs, net_line, pid_io, pid_stat, socket_inode, stat_file, CpuTimes, MemInfo, NetDevView, PidIo, PidStatView,
    StatFileView,
};
use crate::sample::{pid_name, socket_count};
use crate::text::{
    all_of, digits, first_index, is_ascii_space, is_digit, is_space, last_index, lemma_first_index, lemma_span, lemma_span_is_longest, line_len, lines,
    other_than, solid, starts_with, tokens, trim, trim_end, trim_start, without_first, word_len,
};
use crate::units::{cpu_count, cpu_lines};

verus! {

// ---------------------------------------------------------------- words --

/// A character that separates words.
pub open spec fn blank(c: char) -> bool {
    c == ' ' || c == '\t' || c == '\n' || c == '\r' || c == '\u{c}'
}

/// A word: some characters, none of which separates words.
pub open spec fn is_word(w: Seq<char>) -> bool {
    w.len() > 0 && forall|i: int| 0 <= i < w.len() ==> !blank(#[trigger] w[i])
}

/// Words, each behind a space.
pub open spec fn spaced(ws: Seq<Seq<char>>) -> Seq<char>
    decreases ws.len(),
{
    if ws.len() == 0 {
        seq![]
    } else {
        spaced(ws.drop_last()) + seq![' '] + ws.last()
    }
}

/// A word alone is one word.
pub proof fn law_a_word_is_one_word(w: Seq<char>)
    requires
        is_word(w),
    ensures
        tokens(w) == seq![w],
{
    assert forall|k: int| 0 <= k < w.len() implies solid()(#[trigger] w[k]) by {
        assert(!blank(w[k]));
    }
    lemma_span(w, solid(), w.len());
    assert(!blank(w[0]));
    assert(w.take(w.len() as int) =~= w);
    assert(w.skip(w.len() as int) =~= Seq::<char>::empty());
    assert(tokens(w.skip(w.len() as int)) =~= Seq::<Seq<char>>::empty());
    assert(tokens(w) =~= seq![w]);
}

/// What separates two texts keeps their words apart, and adds none.
pub proof fn law_words_split_at_blanks(a: Seq<char>, gap: char, b: Seq<char>)
    requires
        blank(gap),
    ensures
        tokens(a + seq![gap] + b) == tokens(a) + tokens(b),
    decreases a.len(),
{
    let s = a + seq![gap] + b;
    if a.len() == 0 {
        assert(s[0] == gap);
        assert(s.skip(1) =~= b);
        assert(tokens(a) =~= Seq::<Seq<char>>::empty());
        assert(tokens(a) + tokens(b) =~= tokens(b));
    } else if is_ascii_space(a[0]) {
        assert(s[0] == a[0]);
        assert(s.skip(1) =~= a.skip(1) + seq![gap] + b);
        law_words_split_at_blanks(a.skip(1), gap, b);
    } else {
        lemma_span_is_longest(a, solid());
        let n = word_len(a);
        assert(n > 0);
        assert forall|k: int| 0 <= k < n implies solid()(#[trigger] s[k]) by {
            assert(s[k] == a[k]);
        }
        if n < a.len() {
            assert(s[n as int] == a[n as int]);
        } else {
            assert(s[n as int] == gap);
        }
        lemma_span(s, solid(), n);
        assert(s[0] == a[0]);
        assert(s.take(n as int) =~= a.take(n as int));
        assert(s.skip(n as int) =~= a.skip(n as int) + seq![gap] + b);
        law_words_split_at_blanks(a.skip(n as int), gap, b);
        assert(tokens(s) =~= tokens(a) + tokens(b));
    }
}

/// Words that are written with spaces between them are read back, in order.
pub proof fn law_words_read_back(ws: Seq<Seq<char>>)
    requires
        forall|i: int| 0 <= i < ws.len() ==> is_word(#[trigger] ws[i]),
    ensures
        tokens(spaced(ws)) == ws,
    decreases ws.len(),
{
    if ws.len() == 0 {
        assert(tokens(spaced(ws)) =~= ws);
    } else {
        let less = ws.drop_last();
        assert forall|i: int| 0 <= i < less.len() implies is_word(#[trigger] less[i]) by {
            assert(less[i] == ws[i]);
        }
        law_words_read_back(less);
        assert(is_word(ws[ws.len() - 1]));
        law_words_split_at_blanks(spaced(less), ' ', ws.last());
        law_a_word_is_one_word(ws.last());
        assert(less + seq![ws.last()] =~= ws);
    }
}

// ---------------------------------------------------------------- lines --

/// Whether a text is empty or ends where a line does.
pub open spec fn whole_lines(s: Seq<char>) -> bool {
    s.len() == 0 || s.last() == '\n'
}

/// Whether `l` is what a line can hold: no line break, and none to come.
pub open spec fn is_line(l: Seq<char>) -> bool {
    !l.contains('\n') && (l.len() > 0 ==> l.last() != '\r')
}

proof fn lemma_first_line(l: Seq<char>, rest: Seq<char>)
    requires
        !l.contains('\n'),
    ensures
        lines(l + seq!['\n'] + rest) == seq![
            if l.len() > 0 && l.last() == '\r' {
                l.drop_last()
            } else {
                l
            },
        ] + lines(rest),
{
    let s = l + seq!['\n'] + rest;
    let n = l.len();
    assert forall|k: int| 0 <= k < n implies other_than('\n')(#[trigger] s[k]) by {
        assert(s[k] == l[k]);
        assert(l.contains(l[k]));
    }
    assert(s[n as int] == '\n');
    lemma_span(s, other_than('\n'), n);
    assert(s.take(n as int) =~= l);
    assert(s.skip(n as int + 1) =~= rest);
}

/// A line that follows whole lines is one line more, whether its own line break
/// is there, is preceded by a carriage return, or is missing at the end.
pub proof fn law_one_more_line(s: Seq<char>, l: Seq<char>)
    requires
        whole_lines(s),
        is_line(l),
    ensures
        lines(s + l + seq!['\n']) == lines(s).push(l),
        lines(s + l + seq!['\r', '\n']) == lines(s).push(l),
        l.len() > 0 ==> lines(s + l) == lines(s).push(l),
    decreases s.len(),
{
    if s.len() == 0 {
        lemma_first_line(l, seq![]);
        assert(s + l + seq!['\n'] =~= l + seq!['\n'] + Seq::<char>::empty());
        let r = l.push('\r');
        assert(!r.contains('\n')) by {
            if r.contains('\n') {
                let i = r.index_of('\n');
                assert(l[i] == '\n');
            }
        }
        lemma_first_line(r, seq![]);
        assert(r.drop_last() =~= l);
        assert(s + l + seq!['\r', '\n'] =~= r + seq!['\n'] + Seq::<char>::empty());
        assert(lines(Seq::<char>::empty()) =~= Seq::<Seq<char>>::empty());
        assert(lines(s) =~= Seq::<Seq<char>>::empty());
        assert(seq![l] + Seq::<Seq<char>>::empty() =~= lines(s).push(l));
        if l.len() > 0 {
            assert(s + l =~= l);
            assert forall|k: int| 0 <= k < l.len() implies other_than('\n')(#[trigger] l[k]) by {
                assert(l.contains(l[k]));
            }
            lemma_span(l, other_than('\n'), l.len());
            assert(lines(l) =~= lines(s).push(l));
        }
    } else {
        lemma_span_is_longest(s, other_than('\n'));
        let n = line_len(s) as int;
        assert(n < s.len()) by {
            if n == s.len() {
                assert(other_than('\n')(s[s.len() - 1]));
            }
        }
        assert(s[n] == '\n');
        let first = s.take(n);
        let rest = s.skip(n + 1);
        assert(!first.contains('\n')) by {
            if first.contains('\n') {
                let i = first.index_of('\n');
                assert(other_than('\n')(s[i]));
            }
        }
        assert(whole_lines(rest)) by {
            if rest.len() > 0 {
                assert(rest.last() == s.last());
            }
        }
        law_one_more_line(rest, l);
        lemma_first_line(first, rest);
        lemma_first_line(first, rest + l + seq!['\n']);
        lemma_first_line(first, rest + l + seq!['\r', '\n']);
        lemma_first_line(first, rest + l);
        assert(s =~= first + seq!['\n'] + rest);
        assert(s + l + seq!['\n'] =~= first + seq!['\n'] + (rest + l + seq!['\n']));
        assert(s + l + seq!['\r', '\n'] =~= first + seq!['\n'] + (rest + l + seq!['\r', '\n']));
        assert(s + l =~= first + seq!['\n'] + (rest + l));
        assert(lines(s).push(l).len() == lines(rest).push(l).len() + 1);
        assert(lines(s + l + seq!['\n']) =~= lines(s).push(l));
        assert(lines(s + l + seq!['\r', '\n']) =~= lines(s).push(l));
        if l.len() > 0 {
            assert(lines(s + l) =~= lines(s).push(l));
        }
    }
}

/// A text that holds nothing has no lines.
pub proof fn law_nothing_has_no_lines()
    ensures
        lines(Seq::<char>::empty()) == Seq::<Seq<char>>::empty(),
{
}

/// Blanks around a text are taken away, and nothing else.
pub proof fn law_trimming_takes_blanks_away(before: Seq<char>, s: Seq<char>, after: Seq<char>)
    requires
        forall|i: int| 0 <= i < before.len() ==> blank(#[trigger] before[i]),
        forall|i: int| 0 <= i < after.len() ==> blank(#[trigger] after[i]),
        s.len() > 0 ==> is_word(seq![s[0], s.last()]) && s[0] as nat <= 0x7f && s.last() as nat <= 0x7f && s[0]
            != '\u{b}' && s.last() != '\u{b}',
    ensures
        trim(before + s + after) == s,
    decreases before.len() + after.len(),
{
    let t = before + s + after;
    if before.len() > 0 {
        assert(blank(before[0]));
        assert(t[0] == before[0]);
        let less = before.skip(1);
        assert forall|i: int| 0 <= i < less.len() implies blank(#[trigger] less[i]) by {
            assert(less[i] == before[i + 1]);
        }
        assert(t.skip(1) =~= less + s + after);
        law_trimming_takes_blanks_away(less, s, after);
    } else if s.len() == 0 {
        if after.len() > 0 {
            assert(blank(after[0]));
            assert(t[0] == after[0]);
            let less = after.skip(1);
            assert forall|i: int| 0 <= i < less.len() implies blank(#[trigger] less[i]) by {
                assert(less[i] == after[i + 1]);
            }
            assert(t.skip(1) =~= before + s + less);
            law_trimming_takes_blanks_away(before, s, less);
        } else {
            assert(t =~= s);
        }
    } else {
        assert(!blank(seq![s[0], s.last()][0]));
        assert(!blank(seq![s[0], s.last()][1]));
        assert(t[0] == s[0]);
        assert(trim_start(t) == t);
        assert(t =~= s + after);
        lemma_trim_end(s, after);
    }
}

proof fn lemma_trim_end(s: Seq<char>, after: Seq<char>)
    requires
        s.len() > 0,
        !is_space(s.last()),
        forall|i: int| 0 <= i < after.len() ==> blank(#[trigger] after[i]),
    ensures
        trim_end(s + after) == s,
    decreases after.len(),
{
    let t = s + after;
    if after.len() == 0 {
        assert(t =~= s);
    } else {
        assert(blank(after[after.len() - 1]));
        assert(t.last() == after.last());
        let less = after.drop_last();
        assert forall|i: int| 0 <= i < less.len() implies blank(#[trigger] less[i]) by {
            assert(less[i] == after[i]);
        }
        assert(t.drop_last() =~= s + less);
        lemma_trim_end(s, less);
    }
}

// -------------------------------------------------------------- numbers --

pub proof fn lemma_dec_is_a_word(n: nat)
    ensures
        is_word(dec(n)),
        forall|i: int| 0 <= i < dec(n).len() ==> is_digit(#[trigger] dec(n)[i]),
{
    law_dec_reads_back(n);
}

pub proof fn lemma_dec_int_is_a_word(n: int)
    ensures
        is_word(dec_int(n)),
        forall|i: int|
            0 <= i < dec_int(n).len() ==> is_digit(#[trigger] dec_int(n)[i]) || dec_int(n)[i] == '-',
{
    if n < 0 {
        lemma_dec_is_a_word((-n) as nat);
        assert forall|i: int| 0 <= i < dec_int(n).len() implies is_digit(#[trigger] dec_int(n)[i])
            || dec_int(n)[i] == '-' by {
            if i > 0 {
                assert(dec_int(n)[i] == dec((-n) as nat)[i - 1]);
            }
        }
    } else {
        lemma_dec_is_a_word(n as nat);
    }
}

/// Whether no number is written with `c`.
pub open spec fn foreign(c: char) -> bool {
    !('0' <= c <= '9') && c != '+' && c != '-'
}

/// A text with a character that no number is written with is no number, and
/// neither is an empty text, nor a number that is too large.
pub proof fn law_what_is_no_number_is_refused(s: Seq<char>, n: nat)
    requires
        s.len() == 0 || (exists|i: int| 0 <= i < s.len() && foreign(#[trigger] s[i])) || s == dec(n) && n
            > u64::MAX,
    ensures
        parse_u64(s) is None,
        parse_i64(s) is None,
        parse_i32(s) is None,
        u64_or_zero(s) == 0,
{
    law_dec_reads_back(n);
    if exists|i: int| 0 <= i < s.len() && foreign(#[trigger] s[i]) {
        let i = choose|i: int| 0 <= i < s.len() && foreign(#[trigger] s[i]);
        if s[0] == '+' || s[0] == '-' {
            assert(s.skip(1)[i - 1] == s[i]);
        }
        assert(!is_digit(s[i]));
        assert(!all_digits(unplussed(s)));
        assert(s[0] == '-' ==> !all_digits(s.skip(1)));
    } else if s.len() > 0 {
        assert(is_digit(s[0]));
    }
}

// ------------------------------------------------------- /proc/[pid]/stat --

/// Each field of a process stands at its place in `proc(5)`, whatever the other
/// fields are and whatever the name holds: state and parent come first after
/// the name, user and system time are words eleven and twelve from there, the
/// threads are word seventeen, and the start, the address space and the resident
/// pages are words nineteen to twenty-one.
pub proof fn law_stat_fields_stand_in_their_places(p: PidStatView, ws: Seq<Seq<char>>)
    requires
        ws.len() >= 22,
        forall|i: int| 0 <= i < ws.len() ==> is_word(#[trigger] ws[i]) && !ws[i].contains(')'),
        ws[0][0] == p.state,
        ws[1] == dec_int(p.ppid as int),
        ws[11] == dec(p.utime as nat),
        ws[12] == dec(p.stime as nat),
        ws[17] == dec_int(p.num_threads as int),
        ws[19] == dec(p.starttime as nat),
        ws[20] == dec(p.vsize as nat),
        ws[21] == dec_int(p.rss_pages as int),
    ensures
        pid_stat(
            dec_int(p.pid as int) + seq![' ', '('] + p.comm + seq![')'] + spaced(ws) + seq!['\n'],
        ) == Some(p),
{
    let head = dec_int(p.pid as int) + seq![' '];
    let tail = spaced(ws) + seq!['\n'];
    lemma_dec_int_is_a_word(p.pid as int);
    assert(!head.contains('(')) by {
        if head.contains('(') {
            let i = head.index_of('(');
            assert(head[i] == dec_int(p.pid as int)[i]);
        }
    }
    lemma_spaced_lacks(ws, ')');
    assert(!tail.contains(')')) by {
        if tail.contains(')') {
            let i = tail.index_of(')');
            assert(tail[i] == spaced(ws)[i]);
            assert(spaced(ws).contains(')'));
        }
    }
    law_names_are_verbatim(head, p.comm, tail);
    assert(dec_int(p.pid as int) + seq![' ', '('] + p.comm + seq![')'] + spaced(ws) + seq!['\n'] =~= head
        + seq!['('] + p.comm + seq![')'] + tail);
    lemma_trim_word(seq![], dec_int(p.pid as int), seq![' ']);
    assert(Seq::<char>::empty() + dec_int(p.pid as int) + seq![' '] =~= head);
    law_words_read_back(ws);
    law_words_split_at_blanks(spaced(ws), '\n', seq![]);
    assert(tail + Seq::<char>::empty() =~= tail);
    assert(tokens(Seq::<char>::empty()) =~= Seq::<Seq<char>>::empty());
    assert(tokens(tail) =~= ws);
    law_i32_reads_back(p.pid);
    law_i32_reads_back(p.ppid);
    law_u64_reads_back(p.utime);
    law_u64_reads_back(p.stime);
    law_i64_reads_back(p.num_threads);
    law_u64_reads_back(p.starttime);
    law_u64_reads_back(p.vsize);
    law_i64_reads_back(p.rss_pages);
}

/// A line without a name in parentheses says nothing of a process, nor does one
/// with fewer than twenty-two words after the name, nor one with something else
/// than a number for one of the numbers that are needed.
pub proof fn law_damaged_stat_lines_are_refused(s: Seq<char>, head: Seq<char>, comm: Seq<char>, tail: Seq<char>)
    requires
        ({
            ||| !s.contains('(')
            ||| !s.contains(')')
            ||| {
                &&& s == head + seq!['('] + comm + seq![')'] + tail
                &&& !head.contains('(')
                &&& !tail.contains(')')
                &&& {
                    ||| tokens(tail).len() < 22
                    ||| parse_i32(trim(head)) is None
                    ||| parse_i32(tokens(tail)[1]) is None
                    ||| parse_u64(tokens(tail)[11]) is None
                    ||| parse_u64(tokens(tail)[12]) is None
                    ||| parse_i64(tokens(tail)[17]) is None
                    ||| parse_u64(tokens(tail)[19]) is None
                    ||| parse_u64(tokens(tail)[20]) is None
                    ||| parse_i64(tokens(tail)[21]) is None
                }
            }
        }),
    ensures
        pid_stat(s) is None,
{
    if !s.contains('(') {
        lemma_no_first(s, '(');
    } else if !s.contains(')') {
        lemma_no_last(s, ')');
    } else {
        law_names_are_verbatim(head, comm, tail);
    }
}

proof fn lemma_no_first(s: Seq<char>, c: char)
    requires
        !s.contains(c),
    ensures
        first_index(s, c) == s.len(),
{
    assert forall|k: int| 0 <= k < s.len() implies other_than(c)(#[trigger] s[k]) by {
        assert(s.contains(s[k]));
    }
    lemma_span(s, other_than(c), s.len());
}

proof fn lemma_no_last(s: Seq<char>, c: char)
    requires
        !s.contains(c),
    ensures
        last_index(s, c) == -1,
    decreases s.len(),
{
    if s.len() > 0 {
        assert(s[s.len() - 1] != c);
        let less = s.drop_last();
        if less.contains(c) {
            let i = less.index_of(c);
            assert(s[i] == c);
        }
        lemma_no_last(less, c);
    }
}

pub proof fn lemma_spaced_lacks(ws: Seq<Seq<char>>, c: char)
    requires
        c != ' ',
        forall|i: int| 0 <= i < ws.len() ==> !(#[trigger] ws[i]).contains(c),
    ensures
        !spaced(ws).contains(c),
    decreases ws.len(),
{
    if ws.len() > 0 {
        let less = ws.drop_last();
        assert forall|i: int| 0 <= i < less.len() implies !(#[trigger] less[i]).contains(c) by {
            assert(less[i] == ws[i]);
        }
        lemma_spaced_lacks(less, c);
        let s = spaced(ws);
        let n = spaced(less).len();
        assert(!ws[ws.len() - 1].contains(c));
        if s.contains(c) {
            let i = s.index_of(c);
            if i < n {
                assert(spaced(less)[i] == c);
            } else if i > n {
                assert(ws.last()[i - n - 1] == c);
            }
        }
    }
}

proof fn lemma_trim_word(before: Seq<char>, w: Seq<char>, after: Seq<char>)
    requires
        forall|i: int| 0 <= i < before.len() ==> blank(#[trigger] before[i]),
        forall|i: int| 0 <= i < after.len() ==> blank(#[trigger] after[i]),
        w.len() > 0,
        is_digit(w[0]) || w[0] == '-',
        is_digit(w.last()) || w.last() == '-',
    ensures
        trim(before + w + after) == w,
{
    let ends = seq![w[0], w.last()];
    assert forall|i: int| 0 <= i < ends.len() implies !blank(#[trigger] ends[i]) by {}
    law_trimming_takes_blanks_away(before, w, after);
}

// ---------------------------------------------------------- keyed lines --

/// Whether blanks are all that a text holds.
pub open spec fn is_gap(gap: Seq<char>) -> bool {
    forall|i: int| 0 <= i < gap.len() ==> blank(#[trigger] gap[i]) && gap[i] != '\n' && gap[i] != '\r'
}

/// Whether a text begins and ends with a character that is no blank.
pub open spec fn is_tight(s: Seq<char>) -> bool {
    &&& s.len() > 0
    &&& !blank(s[0]) && s[0] as nat <= 0x7f && s[0] != '\u{b}'
    &&& !blank(s.last()) && s.last() as nat <= 0x7f && s.last() != '\u{b}'
}

/// Whether a text can stand before a colon as a name.
pub open spec fn is_name(name: Seq<char>) -> bool {
    is_tight(name) && !name.contains(':') && !name.contains('\n')
}

proof fn lemma_trim_name(before: Seq<char>, name: Seq<char>, after: Seq<char>)
    requires
        is_gap(before),
        is_gap(after),
        is_name(name),
    ensures
        trim(before + name + after) == name,
{
    let ends = seq![name[0], name.last()];
    assert forall|i: int| 0 <= i < ends.len() implies !blank(#[trigger] ends[i]) by {}
    law_trimming_takes_blanks_away(before, name, after);
}

proof fn lemma_keyed(name: Seq<char>, gap: Seq<char>, v: Seq<char>, key: Seq<char>)
    requires
        is_name(name),
        is_gap(gap),
        v.len() > 0,
        is_word(seq![v[0], v.last()]),
        v[0] as nat <= 0x7f && v.last() as nat <= 0x7f && v[0] != '\u{b}' && v.last() != '\u{b}',
    ensures
        keyed(name + seq![':'] + gap + v, key) == if name == key {
            Some(v)
        } else {
            None
        },
{
    let l = name + seq![':'] + gap + v;
    let n = name.len() as int;
    assert(l[n] == ':');
    assert forall|k: int| 0 <= k < n implies l[k] != ':' by {
        assert(l[k] == name[k]);
        assert(name.contains(name[k]));
    }
    lemma_first_index(l, ':', n);
    assert(l.take(n) =~= Seq::<char>::empty() + name + Seq::<char>::empty());
    lemma_trim_name(seq![], name, seq![]);
    assert(Seq::<char>::empty() + name + Seq::<char>::empty() =~= name);
    assert(l.skip(n + 1) =~= gap + v + Seq::<char>::empty());
    law_trimming_takes_blanks_away(gap, v, seq![]);
}

proof fn lemma_is_line(l: Seq<char>, name: Seq<char>, gap: Seq<char>, v: Seq<char>)
    requires
        l == name + seq![':'] + gap + v,
        is_name(name),
        is_gap(gap),
        v.len() > 0,
        v.last() != '\r',
        !v.contains('\n'),
    ensures
        is_line(l),
{
    assert(l.last() == v[v.len() - 1]);
    if l.contains('\n') {
        let i = l.index_of('\n');
        let n = name.len();
        if i < n {
            assert(name[i] == '\n');
        } else if i > n && i < n + 1 + gap.len() {
            assert(gap[i - n - 1] == '\n');
        } else if i > n {
            assert(v[i - n - 1 - gap.len()] == '\n');
        }
    }
}

proof fn lemma_value_line(name: Seq<char>, gap: Seq<char>, v: Seq<char>, key: Seq<char>)
    requires
        is_name(name),
        is_gap(gap),
        is_tight(v),
        !v.contains('\n'),
    ensures
        is_line(name + seq![':'] + gap + v),
        keyed(name + seq![':'] + gap + v, key) == if name == key {
            Some(v)
        } else {
            None
        },
{
    let ends = seq![v[0], v.last()];
    assert forall|i: int| 0 <= i < ends.len() implies !blank(#[trigger] ends[i]) by {}
    lemma_keyed(name, gap, v, key);
    lemma_is_line(name + seq![':'] + gap + v, name, gap, v);
}

proof fn lemma_names()
    ensures
        is_name("rchar"@),
        is_name("wchar"@),
        is_name("read_bytes"@),
        is_name("write_bytes"@),
        "rchar"@ != "wchar"@,
        "rchar"@ != "read_bytes"@,
        "rchar"@ != "write_bytes"@,
        "wchar"@ != "read_bytes"@,
        "wchar"@ != "write_bytes"@,
        "read_bytes"@ != "write_bytes"@,
{
    reveal_strlit("rchar");
    reveal_strlit("wchar");
    reveal_strlit("read_bytes");
    reveal_strlit("write_bytes");
    assert("rchar"@[0] == 'r');
    assert("wchar"@[0] == 'w');
    assert("rchar"@[1] == 'c');
    assert("read_bytes"@[0] == 'r' && "read_bytes"@[1] == 'e');
    assert("write_bytes"@[0] == 'w' && "write_bytes"@[1] == 'r');
    assert("wchar"@[1] == 'c');
}

/// Each I/O counter is the number on the line of its own name, or zero where that
/// is no number, and a line changes no other counter than that one. A file that
/// says nothing leaves them all at zero.
pub proof fn law_each_io_counter_has_its_line(s: Seq<char>, name: Seq<char>, gap: Seq<char>, v: Seq<char>, n: u64)
    requires
        whole_lines(s),
        is_name(name),
        is_gap(gap),
        is_tight(v),
        !v.contains('\n'),
        v == dec(n as nat) || parse_u64(v) is None && n == 0,
    ensures
        name == "rchar"@ ==> pid_io(s + (name + seq![':'] + gap + v) + seq!['\n']) == (PidIo {
            rchar: n,
            ..pid_io(s)
        }),
        name == "wchar"@ ==> pid_io(s + (name + seq![':'] + gap + v) + seq!['\n']) == (PidIo {
            wchar: n,
            ..pid_io(s)
        }),
        name == "read_bytes"@ ==> pid_io(s + (name + seq![':'] + gap + v) + seq!['\n']) == (PidIo {
            read_bytes: n,
            ..pid_io(s)
        }),
        name == "write_bytes"@ ==> pid_io(s + (name + seq![':'] + gap + v) + seq!['\n']) == (PidIo {
            write_bytes: n,
            ..pid_io(s)
        }),
        name != "rchar"@ && name != "wchar"@ && name != "read_bytes"@ && name != "write_bytes"@ ==> pid_io(
            s + (name + seq![':'] + gap + v) + seq!['\n'],
        ) == pid_io(s),
        pid_io(seq![]) == (PidIo { rchar: 0, wchar: 0, read_bytes: 0, write_bytes: 0 }),
{
    let l = name + seq![':'] + gap + v;
    let ls = lines(s);
    lemma_names();
    lemma_value_line(name, gap, v, "rchar"@);
    lemma_value_line(name, gap, v, "wchar"@);
    lemma_value_line(name, gap, v, "read_bytes"@);
    lemma_value_line(name, gap, v, "write_bytes"@);
    law_one_more_line(s, l);
    law_u64_reads_back(n);
    assert(ls.push(l).drop_last() =~= ls);
    assert(ls.push(l).last() == l);
}

// --------------------------------------------------------- /proc/meminfo --

proof fn lemma_kib_line(name: Seq<char>, gap: Seq<char>, n: nat, key: Seq<char>)
    requires
        is_name(name),
        is_gap(gap),
    ensures
        is_line(name + seq![':'] + gap + dec(n) + seq![' ', 'k', 'B']),
        keyed(name + seq![':'] + gap + dec(n) + seq![' ', 'k', 'B'], key) == if name == key {
            Some(dec(n) + seq![' ', 'k', 'B'])
        } else {
            None
        },
{
    lemma_dec_is_a_word(n);
    let v = dec(n) + seq![' ', 'k', 'B'];
    let ends = seq![v[0], v.last()];
    assert(v[0] == dec(n)[0]);
    assert forall|i: int| 0 <= i < ends.len() implies !blank(#[trigger] ends[i]) by {}
    lemma_keyed(name, gap, v, key);
    assert(name + seq![':'] + gap + v =~= name + seq![':'] + gap + dec(n) + seq![' ', 'k', 'B']);
    assert(!v.contains('\n')) by {
        if v.contains('\n') {
            let i = v.index_of('\n');
            if i < dec(n).len() {
                assert(is_digit(dec(n)[i]));
            }
        }
    }
    lemma_is_line(name + seq![':'] + gap + v, name, gap, v);
}

proof fn lemma_kib_words(n: nat)
    ensures
        tokens(dec(n) + seq![' ', 'k', 'B']) == seq![dec(n), seq!['k', 'B']],
{
    lemma_dec_is_a_word(n);
    law_a_word_is_one_word(dec(n));
    law_a_word_is_one_word(seq!['k', 'B']);
    law_words_split_at_blanks(dec(n), ' ', seq!['k', 'B']);
    assert(dec(n) + seq![' '] + seq!['k', 'B'] =~= dec(n) + seq![' ', 'k', 'B']);
    assert(seq![dec(n)] + seq![seq!['k', 'B']] =~= seq![dec(n), seq!['k', 'B']]);
}

proof fn lemma_mem_names()
    ensures
        is_name("MemTotal"@),
        is_name("MemFree"@),
        is_name("MemAvailable"@),
        is_name("Buffers"@),
        is_name("Cached"@),
        is_name("SwapTotal"@),
        is_name("SwapFree"@),
        "MemTotal"@ != "MemFree"@,
        "MemTotal"@ != "MemAvailable"@,
        "MemTotal"@ != "Buffers"@,
        "MemTotal"@ != "Cached"@,
        "MemTotal"@ != "SwapTotal"@,
        "MemTotal"@ != "SwapFree"@,
        "MemFree"@ != "MemAvailable"@,
        "MemFree"@ != "Buffers"@,
        "MemFree"@ != "Cached"@,
        "MemFree"@ != "SwapTotal"@,
        "MemFree"@ != "SwapFree"@,
        "MemAvailable"@ != "Buffers"@,
        "MemAvailable"@ != "Cached"@,
        "MemAvailable"@ != "SwapTotal"@,
        "MemAvailable"@ != "SwapFree"@,
        "Buffers"@ != "Cached"@,
        "Buffers"@ != "SwapTotal"@,
        "Buffers"@ != "SwapFree"@,
        "Cached"@ != "SwapTotal"@,
        "Cached"@ != "SwapFree"@,
        "SwapTotal"@ != "SwapFree"@,
{
    reveal_strlit("MemTotal");
    reveal_strlit("MemFree");
    reveal_strlit("MemAvailable");
    reveal_strlit("Buffers");
    reveal_strlit("Cached");
    reveal_strlit("SwapTotal");
    reveal_strlit("SwapFree");
    assert("MemTotal"@[0] == 'M');
    assert("MemTotal"@[3] == 'T');
    assert("MemFree"@[0] == 'M');
    assert("MemFree"@[3] == 'F');
    assert("MemAvailable"@[0] == 'M');
    assert("MemAvailable"@[3] == 'A');
    assert("Buffers"@[0] == 'B');
    assert("Cached"@[0] == 'C');
    assert("SwapTotal"@[0] == 'S');
    assert("SwapTotal"@[4] == 'T');
    assert("SwapFree"@[0] == 'S');
    assert("SwapFree"@[4] == 'F');
}

/// Each size is the number on the line of its own name, in kibibytes and at most
/// what a `u64` holds, and a line changes no other size than that one. A file
/// that says nothing leaves them all at zero.
pub proof fn law_each_size_has_its_line(s: Seq<char>, name: Seq<char>, gap: Seq<char>, n: nat, bytes: u64)
    requires
        whole_lines(s),
        is_name(name),
        is_gap(gap),
        n <= u64::MAX,
        bytes == if n * 1024 <= u64::MAX {
            n * 1024
        } else {
            u64::MAX as nat
        },
    ensures
        name == "MemTotal"@ ==> mem_sizes(lines(s + (name + seq![':'] + gap + dec(n) + seq![' ', 'k', 'B']) + seq!['\n']))
            == (MemInfo { total: bytes, ..mem_sizes(lines(s)) }),
        name == "MemFree"@ ==> mem_sizes(lines(s + (name + seq![':'] + gap + dec(n) + seq![' ', 'k', 'B']) + seq!['\n']))
            == (MemInfo { free: bytes, ..mem_sizes(lines(s)) }),
        name == "MemAvailable"@ ==> mem_sizes(lines(s + (name + seq![':'] + gap + dec(n) + seq![' ', 'k', 'B']) + seq!['\n']))
            == (MemInfo { available: bytes, ..mem_sizes(lines(s)) }),
        name == "Buffers"@ ==> mem_sizes(lines(s + (name + seq![':'] + gap + dec(n) + seq![' ', 'k', 'B']) + seq!['\n']))
            == (MemInfo { buffers: bytes, ..mem_sizes(lines(s)) }),
        name == "Cached"@ ==> mem_sizes(lines(s + (name + seq![':'] + gap + dec(n) + seq![' ', 'k', 'B']) + seq!['\n']))
            == (MemInfo { cached: bytes, ..mem_sizes(lines(s)) }),
        name == "SwapTotal"@ ==> mem_sizes(lines(s + (name + seq![':'] + gap + dec(n) + seq![' ', 'k', 'B']) + seq!['\n']))
            == (MemInfo { swap_total: bytes, ..mem_sizes(lines(s)) }),
        name == "SwapFree"@ ==> mem_sizes(lines(s + (name + seq![':'] + gap + dec(n) + seq![' ', 'k', 'B']) + seq!['\n']))
            == (MemInfo { swap_free: bytes, ..mem_sizes(lines(s)) }),
        name != "MemTotal"@ && name != "MemFree"@ && name != "MemAvailable"@ && name != "Buffers"@ && name != "Cached"@ && name != "SwapTotal"@ && name != "SwapFree"@
            ==> mem_sizes(lines(s + (name + seq![':'] + gap + dec(n) + seq![' ', 'k', 'B']) + seq!['\n']))
            == mem_sizes(lines(s)),
        mem_sizes(lines(seq![])) == (MemInfo {
            total: 0,
            free: 0,
            available: 0,
            buffers: 0,
            cached: 0,
            swap_total: 0,
            swap_free: 0,
        }),
{
    let l = name + seq![':'] + gap + dec(n) + seq![' ', 'k', 'B'];
    let ls = lines(s);
    lemma_mem_names();
    lemma_kib_line(name, gap, n, "MemTotal"@);
    lemma_kib_line(name, gap, n, "MemFree"@);
    lemma_kib_line(name, gap, n, "MemAvailable"@);
    lemma_kib_line(name, gap, n, "Buffers"@);
    lemma_kib_line(name, gap, n, "Cached"@);
    lemma_kib_line(name, gap, n, "SwapTotal"@);
    lemma_kib_line(name, gap, n, "SwapFree"@);
    law_one_more_line(s, l);
    law_u64_reads_back(n as u64);
    lemma_kib_words(n);
    assert(kib_bytes(dec(n) + seq![' ', 'k', 'B']) == bytes);
    assert(ls.push(l).drop_last() =~= ls);
    assert(ls.push(l).last() == l);
}

/// The sizes are those of their lines. Only what is available may be guessed,
/// where there is memory and no line says it: it is then what is free, what is
/// buffered and what is cached together. Without memory nothing is available.
pub proof fn law_only_what_is_available_is_guessed(s: Seq<char>)
    requires
        meminfo_fits(s),
    ensures
        ({
            let m = mem_sizes(lines(s));
            let said = exists|i: int|
                0 <= i < lines(s).len() && keyed(#[trigger] lines(s)[i], "MemAvailable"@) is Some;
            &&& meminfo(s).total == m.total
            &&& meminfo(s).free == m.free
            &&& meminfo(s).buffers == m.buffers
            &&& meminfo(s).cached == m.cached
            &&& meminfo(s).swap_total == m.swap_total
            &&& meminfo(s).swap_free == m.swap_free
            &&& said ==> meminfo(s).available == m.available
            &&& !said && m.total > 0 ==> meminfo(s).available == m.free + m.buffers + m.cached
            &&& !said && m.total == 0 ==> meminfo(s).available == 0
        }),
{
    let ls = lines(s);
    if !has_key(ls, "MemAvailable"@) {
        lemma_nothing_said(ls, "MemAvailable"@);
    }
}

proof fn lemma_nothing_said(ls: Seq<Seq<char>>, key: Seq<char>)
    requires
        !has_key(ls, key),
    ensures
        mem_size(ls, key) == 0,
    decreases ls.len(),
{
    if ls.len() > 0 {
        let less = ls.drop_last();
        assert(keyed(ls[ls.len() - 1], key) is None);
        if has_key(less, key) {
            let i = choose|i: int| 0 <= i < less.len() && keyed(#[trigger] less[i], key) is Some;
            assert(ls[i] == less[i]);
        }
        lemma_nothing_said(less, key);
    }
}

/// Used memory and what is available make up the total, and more is never
/// available than there is: then nothing counts as used. What is free but cached
/// plays no part.
pub proof fn law_used_memory_is_what_is_not_available(m: MemInfo, other: MemInfo)
    requires
        other.total == m.total,
        other.available == m.available,
    ensures
        m.available <= m.total ==> m.used_bytes() + m.available == m.total,
        m.available > m.total ==> m.used_bytes() == 0,
        other.used_bytes() == m.used_bytes(),
        other.used_percent() == m.used_percent(),
        m.total > 0 && m.available == 0 ==> m.used_percent() == of_int(100),
        m.available >= m.total ==> m.used_percent() == of_int(0),
{
    law_whole_numbers_are_finite(100);
    law_whole_numbers_are_finite(0);
    if m.total > 0 {
        let t = of_int(m.total as int);
        law_whole_numbers_are_finite(m.total as nat);
        lemma_whole_number_is_at_least_one(m.total as nat);
        if m.available == 0 {
            lemma_quotient_by_itself(t);
            lemma_one_times(of_int(100));
        }
        if m.available >= m.total {
            lemma_zero_over(t);
            law_small_products_are_exact(0, 100);
        }
    }
}

// ------------------------------------------------------------ /proc/stat --

/// Whether word `i` is `n` in decimal; where there is no such word, or it is no
/// number, `n` is zero.
pub open spec fn writes(t: Seq<Seq<char>>, i: int, n: u64) -> bool {
    if i < t.len() {
        t[i] == dec(n as nat) || parse_u64(t[i]) is None && n == 0
    } else {
        n == 0
    }
}

/// Whether the words are the times of a CPU in the order of `proc(5)`: user,
/// nice, system, idle, waiting for I/O, interrupts, soft interrupts, stolen,
/// guest and nice guest time. Older kernels write fewer.
pub open spec fn writes_times(t: Seq<Seq<char>>, c: CpuTimes) -> bool {
    &&& writes(t, 0, c.user)
    &&& writes(t, 1, c.nice)
    &&& writes(t, 2, c.system)
    &&& writes(t, 3, c.idle)
    &&& writes(t, 4, c.iowait)
    &&& writes(t, 5, c.irq)
    &&& writes(t, 6, c.softirq)
    &&& writes(t, 7, c.steal)
    &&& writes(t, 8, c.guest)
    &&& writes(t, 9, c.guest_nice)
}

proof fn lemma_times(rest: Seq<char>, c: CpuTimes)
    requires
        writes_times(tokens(rest), c),
    ensures
        cpu_times(rest) == c,
{
    law_u64_reads_back(c.user);
    law_u64_reads_back(c.nice);
    law_u64_reads_back(c.system);
    law_u64_reads_back(c.idle);
    law_u64_reads_back(c.iowait);
    law_u64_reads_back(c.irq);
    law_u64_reads_back(c.softirq);
    law_u64_reads_back(c.steal);
    law_u64_reads_back(c.guest);
    law_u64_reads_back(c.guest_nice);
}

/// The line of all CPUs together gives the total and nothing else. Its columns
/// are the times in the order of `proc(5)`.
pub proof fn law_the_total_has_its_line(s: Seq<char>, rest: Seq<char>, c: CpuTimes)
    requires
        whole_lines(s),
        is_line(seq!['c', 'p', 'u'] + rest),
        rest.len() > 0,
        blank(rest[0]),
        writes_times(tokens(rest), c),
    ensures
        stat_file(s + (seq!['c', 'p', 'u'] + rest) + seq!['\n']) == (StatFileView { total: c, ..stat_file(s) }),
{
    let l = seq!['c', 'p', 'u'] + rest;
    let ls = lines(s);
    law_one_more_line(s, l);
    assert(ls.push(l).drop_last() =~= ls);
    assert(ls.push(l).last() == l);
    lemma_times(rest, c);
    reveal_strlit("cpu");
    assert(l.take(3) =~= "cpu"@);
    assert(l.skip(3) =~= rest);
    assert(l[3] == rest[0]);
    lemma_counter_prefixes(l);
}

proof fn lemma_counter_prefixes(l: Seq<char>)
    ensures
        l.len() > 1 && l[0] == 'c' && l[1] == 'p' ==> !starts_with(l, "ctxt "@) && !starts_with(
            l,
            "procs_running "@,
        ) && !starts_with(l, "procs_blocked "@),
        starts_with(l, "cpu"@) ==> l.len() > 1 && l[0] == 'c' && l[1] == 'p',
        starts_with(l, "ctxt "@) ==> l.len() > 1 && l[0] == 'c' && l[1] == 't',
        starts_with(l, "procs_running "@) ==> l.len() > 6 && l[0] == 'p' && l[6] == 'r',
        starts_with(l, "procs_blocked "@) ==> l.len() > 6 && l[0] == 'p' && l[6] == 'b',
{
    reveal_strlit("cpu");
    reveal_strlit("ctxt ");
    reveal_strlit("procs_running ");
    reveal_strlit("procs_blocked ");
    if starts_with(l, "cpu"@) {
        assert(l.take(3)[0] == 'c' && l.take(3)[1] == 'p');
    }
    if starts_with(l, "ctxt "@) {
        assert(l.take(5)[0] == 'c' && l.take(5)[1] == 't');
    }
    if starts_with(l, "procs_running "@) {
        assert(l.take(14)[0] == 'p' && l.take(14)[6] == 'r');
    }
    if starts_with(l, "procs_blocked "@) {
        assert(l.take(14)[0] == 'p' && l.take(14)[6] == 'b');
    }
}

/// The line of one CPU adds that CPU after those before it, and changes nothing
/// else.
pub proof fn law_each_cpu_has_its_line(s: Seq<char>, k: nat, rest: Seq<char>, c: CpuTimes)
    requires
        whole_lines(s),
        is_line(seq!['c', 'p', 'u'] + dec(k) + rest),
        rest.len() > 0 ==> blank(rest[0]),
        writes_times(tokens(rest), c),
    ensures
        stat_file(s + (seq!['c', 'p', 'u'] + dec(k) + rest) + seq!['\n']) == (StatFileView {
            per_cpu: stat_file(s).per_cpu.push(c),
            ..stat_file(s)
        }),
        cpu_lines(lines(s + (seq!['c', 'p', 'u'] + dec(k) + rest) + seq!['\n'])) == cpu_lines(lines(s)) + 1,
{
    let l = seq!['c', 'p', 'u'] + dec(k) + rest;
    let ls = lines(s);
    law_one_more_line(s, l);
    assert(ls.push(l).drop_last() =~= ls);
    assert(ls.push(l).last() == l);
    lemma_times(rest, c);
    lemma_dec_is_a_word(k);
    reveal_strlit("cpu");
    assert(l.take(3) =~= "cpu"@);
    let after = l.skip(3);
    assert(after =~= dec(k) + rest);
    assert(l[3] == dec(k)[0]);
    assert forall|i: int| 0 <= i < dec(k).len() implies digits()(#[trigger] after[i]) by {
        assert(after[i] == dec(k)[i]);
    }
    if rest.len() > 0 {
        assert(after[dec(k).len() as int] == rest[0]);
    }
    lemma_span(after, digits(), dec(k).len());
    assert(after.skip(dec(k).len() as int) =~= rest);
    lemma_counter_prefixes(l);
    assert(!is_ascii_space(l[3]));
}

/// Each counter is the number on the line of its own name, and its line changes
/// nothing else.
pub proof fn law_each_counter_has_its_line(s: Seq<char>, n: u64)
    requires
        whole_lines(s),
    ensures
        stat_file(s + ("ctxt "@ + dec(n as nat)) + seq!['\n']) == (StatFileView { ctxt: n, ..stat_file(s) }),
        stat_file(s + ("procs_running "@ + dec(n as nat)) + seq!['\n']) == (StatFileView { procs_running: n, ..stat_file(s) }),
        stat_file(s + ("procs_blocked "@ + dec(n as nat)) + seq!['\n']) == (StatFileView { procs_blocked: n, ..stat_file(s) }),
{
    let ls = lines(s);
    law_u64_reads_back(n);
    lemma_dec_is_a_word(n as nat);
    reveal_strlit("ctxt ");
    reveal_strlit("procs_running ");
    reveal_strlit("procs_blocked ");
    lemma_counter_line(s, "ctxt "@, n);
    assert(stat_file(s + ("ctxt "@ + dec(n as nat)) + seq!['\n']) == (StatFileView { ctxt: n, ..stat_file(s) })) by {
        lemma_counter_prefixes("ctxt "@ + dec(n as nat));
    }
    lemma_counter_line(s, "procs_running "@, n);
    assert(stat_file(s + ("procs_running "@ + dec(n as nat)) + seq!['\n']) == (StatFileView { procs_running: n, ..stat_file(s) })) by {
        lemma_counter_prefixes("procs_running "@ + dec(n as nat));
    }
    lemma_counter_line(s, "procs_blocked "@, n);
    assert(stat_file(s + ("procs_blocked "@ + dec(n as nat)) + seq!['\n']) == (StatFileView { procs_blocked: n, ..stat_file(s) })) by {
        lemma_counter_prefixes("procs_blocked "@ + dec(n as nat));
    }
}

proof fn lemma_counter_line(s: Seq<char>, name: Seq<char>, n: u64)
    requires
        whole_lines(s),
        !name.contains('\n'),
        name.len() > 0,
    ensures
        ({
            let l = name + dec(n as nat);
            &&& lines(s + l + seq!['\n']) == lines(s).push(l)
            &&& lines(s).push(l).drop_last() == lines(s)
            &&& lines(s).push(l).last() == l
            &&& starts_with(l, name)
            &&& u64_or_zero(trim(l.skip(name.len() as int))) == n
            &&& l.len() > name.len()
            &&& forall|i: int| 0 <= i < name.len() ==> l[i] == name[i]
        }),
{
    let l = name + dec(n as nat);
    lemma_dec_is_a_word(n as nat);
    law_u64_reads_back(n);
    assert(l.last() == dec(n as nat)[dec(n as nat).len() - 1]);
    assert(!l.contains('\n')) by {
        if l.contains('\n') {
            let i = l.index_of('\n');
            if i < name.len() {
                assert(name[i] == '\n');
            } else {
                assert(is_digit(dec(n as nat)[i - name.len()]));
            }
        }
    }
    law_one_more_line(s, l);
    assert(lines(s).push(l).drop_last() =~= lines(s));
    assert(l.take(name.len() as int) =~= name);
    lemma_trim_word(seq![], dec(n as nat), seq![]);
    assert(l.skip(name.len() as int) =~= Seq::<char>::empty() + dec(n as nat) + Seq::<char>::empty());
}

/// A line with none of these names changes nothing, and a file that says nothing
/// leaves everything at zero.
pub proof fn law_other_lines_change_nothing(s: Seq<char>, l: Seq<char>)
    requires
        whole_lines(s),
        is_line(l),
        !(l.len() >= 3 && l[0] == 'c' && l[1] == 'p' && l[2] == 'u'),
        !(l.len() >= 5 && l[0] == 'c' && l[1] == 't' && l[2] == 'x' && l[3] == 't' && l[4] == ' '),
        !(l.len() >= 6 && l[0] == 'p' && l[1] == 'r' && l[2] == 'o' && l[3] == 'c' && l[4] == 's' && l[5]
            == '_'),
    ensures
        stat_file(s + l + seq!['\n']) == stat_file(s),
        cpu_lines(lines(s + l + seq!['\n'])) == cpu_lines(lines(s)),
        stat_file(seq![]) == (StatFileView {
            total: CpuTimes {
                user: 0,
                nice: 0,
                system: 0,
                idle: 0,
                iowait: 0,
                irq: 0,
                softirq: 0,
                steal: 0,
                guest: 0,
                guest_nice: 0,
            },
            per_cpu: seq![],
            ctxt: 0,
            procs_running: 0,
            procs_blocked: 0,
        }),
        cpu_count(seq![]) == 1,
        cpu_lines(lines(s)) > 0 ==> cpu_count(s) == cpu_lines(lines(s)),
        cpu_lines(lines(s)) == 0 ==> cpu_count(s) == 1,
{
    let ls = lines(s);
    law_one_more_line(s, l);
    assert(ls.push(l).drop_last() =~= ls);
    assert(ls.push(l).last() == l);
    reveal_strlit("cpu");
    reveal_strlit("ctxt ");
    reveal_strlit("procs_running ");
    reveal_strlit("procs_blocked ");
    if starts_with(l, "cpu"@) {
        assert(l.take(3)[0] == 'c' && l.take(3)[1] == 'p' && l.take(3)[2] == 'u');
    }
    if starts_with(l, "ctxt "@) {
        let t = l.take(5);
        assert(t[0] == 'c' && t[1] == 't' && t[2] == 'x' && t[3] == 't' && t[4] == ' ');
    }
    if starts_with(l, "procs_running "@) {
        let t = l.take(14);
        assert(t[0] == 'p' && t[1] == 'r' && t[2] == 'o' && t[3] == 'c' && t[4] == 's' && t[5] == '_');
    }
    if starts_with(l, "procs_blocked "@) {
        let t = l.take(14);
        assert(t[0] == 'p' && t[1] == 'r' && t[2] == 'o' && t[3] == 'c' && t[4] == 's' && t[5] == '_');
    }
    assert(lines(Seq::<char>::empty()) =~= Seq::<Seq<char>>::empty());
    assert(stat_file(seq![]).per_cpu =~= seq![]);
}

/// Every tick that is not guest time counts once in the total, and it counts as
/// busy unless it was idle or waiting for I/O.
pub proof fn law_every_tick_counts_once(t: CpuTimes, d: u64)
    ensures
        t.user + d <= u64::MAX ==> (CpuTimes { user: (t.user + d) as u64, ..t }).sum() == t.sum() + d
            && (CpuTimes { user: (t.user + d) as u64, ..t }).busy_sum() == t.busy_sum() + d,
        t.nice + d <= u64::MAX ==> (CpuTimes { nice: (t.nice + d) as u64, ..t }).sum() == t.sum() + d
            && (CpuTimes { nice: (t.nice + d) as u64, ..t }).busy_sum() == t.busy_sum() + d,
        t.system + d <= u64::MAX ==> (CpuTimes { system: (t.system + d) as u64, ..t }).sum() == t.sum() + d
            && (CpuTimes { system: (t.system + d) as u64, ..t }).busy_sum() == t.busy_sum() + d,
        t.idle + d <= u64::MAX ==> (CpuTimes { idle: (t.idle + d) as u64, ..t }).sum() == t.sum() + d
            && (CpuTimes { idle: (t.idle + d) as u64, ..t }).busy_sum() == t.busy_sum() + 0,
        t.iowait + d <= u64::MAX ==> (CpuTimes { iowait: (t.iowait + d) as u64, ..t }).sum() == t.sum() + d
            && (CpuTimes { iowait: (t.iowait + d) as u64, ..t }).busy_sum() == t.busy_sum() + 0,
        t.irq + d <= u64::MAX ==> (CpuTimes { irq: (t.irq + d) as u64, ..t }).sum() == t.sum() + d
            && (CpuTimes { irq: (t.irq + d) as u64, ..t }).busy_sum() == t.busy_sum() + d,
        t.softirq + d <= u64::MAX ==> (CpuTimes { softirq: (t.softirq + d) as u64, ..t }).sum() == t.sum() + d
            && (CpuTimes { softirq: (t.softirq + d) as u64, ..t }).busy_sum() == t.busy_sum() + d,
        t.steal + d <= u64::MAX ==> (CpuTimes { steal: (t.steal + d) as u64, ..t }).sum() == t.sum() + d
            && (CpuTimes { steal: (t.steal + d) as u64, ..t }).busy_sum() == t.busy_sum() + d,
        t.guest + d <= u64::MAX ==> (CpuTimes { guest: (t.guest + d) as u64, ..t }).sum() == t.sum() + 0
            && (CpuTimes { guest: (t.guest + d) as u64, ..t }).busy_sum() == t.busy_sum() + 0,
        t.guest_nice + d <= u64::MAX ==> (CpuTimes { guest_nice: (t.guest_nice + d) as u64, ..t }).sum() == t.sum() + 0
            && (CpuTimes { guest_nice: (t.guest_nice + d) as u64, ..t }).busy_sum() == t.busy_sum() + 0,
        (CpuTimes {
            user: 0,
            nice: 0,
            system: 0,
            idle: 0,
            iowait: 0,
            irq: 0,
            softirq: 0,
            steal: 0,
            guest: 0,
            guest_nice: 0,
        }).sum() == 0,
{
}

// ---------------------------------------------------------- /proc/net/dev --

/// After the two header lines, the line of an interface adds that interface: its
/// name is what stands before the colon, what it received comes first, and what
/// it sent begins with the ninth counter. The first counter may stand right
/// behind the colon. A line with fewer than sixteen counters, or without a colon,
/// adds nothing.
pub proof fn law_each_interface_has_its_line(
    s: Seq<char>,
    pad: Seq<char>,
    n: NetDevView,
    rest: Seq<char>,
    other: Seq<char>,
)
    requires
        whole_lines(s),
        lines(s).len() >= 2,
        is_gap(pad),
        is_name(n.name),
        is_line(pad + n.name + seq![':'] + rest),
        tokens(rest).len() >= 16,
        tokens(rest)[0] == dec(n.rx_bytes as nat),
        tokens(rest)[1] == dec(n.rx_packets as nat),
        tokens(rest)[2] == dec(n.rx_errs as nat),
        tokens(rest)[3] == dec(n.rx_drop as nat),
        tokens(rest)[8] == dec(n.tx_bytes as nat),
        tokens(rest)[9] == dec(n.tx_packets as nat),
        tokens(rest)[10] == dec(n.tx_errs as nat),
        tokens(rest)[11] == dec(n.tx_drop as nat),
        is_line(other),
        !other.contains(':') || exists|i: int|
            0 <= i < other.len() && (#[trigger] other[i]) == ':' && tokens(other.skip(i + 1)).len() < 16
                && !other.take(i).contains(':'),
    ensures
        net_devs(s + (pad + n.name + seq![':'] + rest) + seq!['\n']) == net_devs(s).push(n),
        net_devs(s + other + seq!['\n']) == net_devs(s),
{
    let l = pad + n.name + seq![':'] + rest;
    let ls = lines(s);
    law_one_more_line(s, l);
    law_one_more_line(s, other);
    let i = (pad.len() + n.name.len()) as int;
    assert(l[i] == ':');
    assert forall|k: int| 0 <= k < i implies l[k] != ':' by {
        if k < pad.len() {
            assert(l[k] == pad[k]);
        } else {
            assert(l[k] == n.name[k - pad.len()]);
            assert(n.name.contains(n.name[k - pad.len()]));
        }
    }
    lemma_first_index(l, ':', i);
    assert(l.take(i) =~= pad + n.name + Seq::<char>::empty());
    lemma_trim_name(pad, n.name, seq![]);
    assert(l.skip(i + 1) =~= rest);
    law_u64_reads_back(n.rx_bytes);
    law_u64_reads_back(n.rx_packets);
    law_u64_reads_back(n.rx_errs);
    law_u64_reads_back(n.rx_drop);
    law_u64_reads_back(n.tx_bytes);
    law_u64_reads_back(n.tx_packets);
    law_u64_reads_back(n.tx_errs);
    law_u64_reads_back(n.tx_drop);
    assert(ls.push(l).skip(2) =~= ls.skip(2).push(l));
    assert(ls.push(other).skip(2) =~= ls.skip(2).push(other));
    assert(ls.skip(2).push(l).drop_last() =~= ls.skip(2));
    assert(ls.skip(2).push(other).drop_last() =~= ls.skip(2));
    if !other.contains(':') {
        lemma_no_first(other, ':');
    } else {
        let k = choose|i: int|
            0 <= i < other.len() && (#[trigger] other[i]) == ':' && tokens(other.skip(i + 1)).len() < 16
                && !other.take(i).contains(':');
        assert forall|j: int| 0 <= j < k implies other[j] != ':' by {
            assert(other.take(k)[j] == other[j]);
            assert(other.take(k).contains(other[j]));
        }
        lemma_first_index(other, ':', k);
    }
    let empty = ls.skip(2);
    assert(net_devs(s) == if ls.len() <= 2 {
        all_of(seq![], net_line())
    } else {
        all_of(empty, net_line())
    });
    if ls.len() == 2 {
        assert(empty =~= Seq::<Seq<char>>::empty());
    }
    assert(net_line()(l) == Some(n));
    assert(net_line()(other) is None);
}

/// The header lines are no interfaces.
pub proof fn law_headers_are_no_interfaces(s: Seq<char>)
    requires
        lines(s).len() <= 2,
    ensures
        net_devs(s).len() == 0,
{
}

// ------------------------------------------------------------- sockets --

/// After the header line, a line of the socket table adds the inode that is its
/// tenth word, unless that is zero, no number or missing.
pub proof fn law_each_socket_has_its_line(s: Seq<char>, l: Seq<char>, inode: u64)
    requires
        whole_lines(s),
        lines(s).len() >= 1,
        is_line(l),
    ensures
        tokens(l).len() >= 10 && tokens(l)[9] == dec(inode as nat) && inode > 0 ==> all_of(
            without_first(lines(s + l + seq!['\n']), 1),
            inode_line(),
        ) == all_of(without_first(lines(s), 1), inode_line()).push(inode),
        tokens(l).len() < 10 || tokens(l)[9] == dec(0) || parse_u64(tokens(l)[9]) is None ==> all_of(
            without_first(lines(s + l + seq!['\n']), 1),
            inode_line(),
        ) == all_of(without_first(lines(s), 1), inode_line()),
        lines(s).len() == 1 ==> all_of(without_first(lines(s), 1), inode_line()).len() == 0,
{
    let ls = lines(s);
    law_one_more_line(s, l);
    law_u64_reads_back(inode);
    law_u64_reads_back(0);
    assert(ls.push(l).skip(1) =~= ls.skip(1).push(l));
    assert(ls.skip(1).push(l).drop_last() =~= ls.skip(1));
    if ls.len() == 1 {
        assert(ls.skip(1) =~= Seq::<Seq<char>>::empty());
    }
}

/// The link of a socket holds its inode, and no other link holds one.
pub proof fn law_socket_links_hold_their_inode(inode: u64, target: Seq<char>)
    ensures
        socket_inode("socket:["@ + dec(inode as nat) + "]"@) == Some(inode),
        socket_inode(target) is Some ==> exists|x: Seq<char>|
            target == "socket:["@ + x + "]"@ && parse_u64(x) == socket_inode(target),
{
    reveal_strlit("socket:[");
    reveal_strlit("]");
    law_u64_reads_back(inode);
    let t = "socket:["@ + dec(inode as nat) + "]"@;
    assert(t.take(8) =~= "socket:["@);
    let rest = t.skip(8);
    assert(rest =~= dec(inode as nat) + "]"@);
    assert(rest.skip(rest.len() - 1) =~= "]"@);
    assert(rest.take(rest.len() - 1) =~= dec(inode as nat));
    if socket_inode(target) is Some {
        let r = target.skip(8);
        let x = r.take(r.len() - 1);
        assert(target.take(8) =~= "socket:["@);
        assert(r.skip(r.len() - 1) =~= "]"@);
        assert(target =~= "socket:["@ + x + "]"@) by {
            assert(r =~= x + "]"@);
            assert(target =~= target.take(8) + r);
        }
    }
}

/// The names of directories that are numbers are the processes, in order, and no
/// other name is one.
pub proof fn law_numbers_name_processes(names: Seq<Seq<char>>, pid: i32, other: Seq<char>)
    requires
        exists|i: int| 0 <= i < other.len() && foreign(#[trigger] other[i]),
    ensures
        all_of(names.push(dec_int(pid as int)), pid_name()) == all_of(names, pid_name()).push(pid),
        all_of(names.push(other), pid_name()) == all_of(names, pid_name()),
        all_of(Seq::<Seq<char>>::empty(), pid_name()).len() == 0,
{
    law_i32_reads_back(pid);
    law_what_is_no_number_is_refused(other, 0);
    assert(names.push(dec_int(pid as int)).drop_last() =~= names);
    assert(names.push(other).drop_last() =~= names);
}

/// A process has as many sockets as links that hold an inode.
pub proof fn law_each_socket_link_counts(targets: Seq<Seq<char>>, t: Seq<char>)
    ensures
        socket_count(targets.push(t)) == socket_count(targets) + if socket_inode(t) is Some {
            1int
        } else {
            0int
        },
        socket_count(seq![]) == 0,
{
    assert(targets.push(t).drop_last() =~= targets);
}

/// A plus sign changes no number, and a minus sign makes none of what has no
/// sign; a number beyond its range is none.
pub proof fn law_signs_and_ranges(n: nat)
    ensures
        n <= u64::MAX ==> parse_u64(seq!['+'] + dec(n)) == Some(n as u64),
        parse_u64(seq!['-'] + dec(n)) is None,
        n > u64::MAX ==> parse_u64(dec(n)) is None,
        n > i64::MAX ==> parse_i64(dec(n)) is None,
        n > 0x8000_0000_0000_0000 ==> parse_i64(seq!['-'] + dec(n)) is None,
        n > i32::MAX ==> parse_i32(dec(n)) is None,
        n > 0x8000_0000 ==> parse_i32(seq!['-'] + dec(n)) is None,
        n <= usize::MAX ==> parse_usize(dec(n)) == Some(n as usize),
{
    law_dec_reads_back(n);
    let p = seq!['+'] + dec(n);
    let m = seq!['-'] + dec(n);
    assert(p.skip(1) =~= dec(n));
    assert(m.skip(1) =~= dec(n));
    assert(is_digit(dec(n)[0]));
    assert(!is_digit(m[0]));
    assert(!all_digits(m));
}

/// Sizes fit unless what is available has to be guessed and the guess is beyond
/// a `u64`.
pub proof fn law_sizes_fit(s: Seq<char>)
    ensures
        ({
            let m = mem_sizes(lines(s));
            let said = exists|i: int|
                0 <= i < lines(s).len() && keyed(#[trigger] lines(s)[i], "MemAvailable"@) is Some;
            meminfo_fits(s) <==> said || m.total == 0 || m.free + m.buffers + m.cached <= u64::MAX
        }),
{
}

/// The share of memory that is used is what is used out of all there is, in
/// percent; quarters of it are exact.
pub proof fn law_the_share_of_used_memory(m: MemInfo, quarters: nat)
    requires
        0 < m.total,
    ensures
        m.used_percent() == of_int(
            if m.available <= m.total {
                m.total - m.available
            } else {
                0
            },
        ).quotient(of_int(m.total as int)).product(of_int(100)),
        m.available <= m.total < 0x20_0000_0000_0000 && 4 * (m.total - m.available) == quarters * m.total
            && quarters <= 4 ==> m.used_percent() == of_int((25 * quarters) as int),
{
    if m.available <= m.total < 0x20_0000_0000_0000 && 4 * (m.total - m.available) == quarters * m.total
        && quarters <= 4 {
        law_quarters_are_exact(quarters, (m.total - m.available) as nat, m.total as nat);
    }
}

} // verus!
