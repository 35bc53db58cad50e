//! Text primitives shared by every parser and renderer.
//!
//! A text is modelled as the sequence of its characters. Executable code works
//! on `&[char]`, so a piece of a line is a sub-slice and nothing is copied
//! until a field is stored.

use vstd::prelude::*;
use vstd::slice::slice_subrange;
use vstd::string::*;

verus! {

/// `String::push` appends the given character to the end of the string.
pub assume_specification[ String::push ](s: &mut String, c: char)
    ensures
        final(s)@ == old(s)@.push(c),
;

// ------------------------------------------------------------ conversion --

/// The characters of `s`.
pub fn chars_of(s: &str) -> (v: Vec<char>)
    ensures
        v@ == s@,
{
    let mut v: Vec<char> = Vec::new();
    for c in it: s.chars()
        invariant
            v@ == it.seq().take(it.index()),
            it.seq() == s@,
    {
        v.push(c);
        assert(it.seq().take(it.index() + 1) =~= it.seq().take(it.index()).push(c));
    }
    assert(v@ =~= s@);
    v
}

/// Appends every character of `s` to `out`.
pub fn push_chars(out: &mut String, s: &[char])
    ensures
        final(out)@ == old(out)@ + s@,
{
    let ghost before = out@;
    let mut i: usize = 0;
    assert(before + s@.take(0) =~= before);
    while i < s.len()
        invariant
            i <= s.len(),
            out@ == before + s@.take(i as int),
        decreases s.len() - i,
    {
        out.push(s[i]);
        assert(s@.take(i + 1) =~= s@.take(i as int).push(s@[i as int]));
        assert(before + s@.take(i + 1) =~= (before + s@.take(i as int)).push(s@[i as int]));
        i += 1;
    }
    assert(s@.take(s.len() as int) =~= s@);
}

/// The string made of the characters of `s`.
pub fn string_of(s: &[char]) -> (r: String)
    ensures
        r@ == s@,
{
    let mut r = String::new();
    push_chars(&mut r, s);
    assert(Seq::<char>::empty() + s@ =~= s@);
    r
}

/// A copy of `s`.
pub fn copy_str(s: &str) -> (r: String)
    ensures
        r@ == s@,
{
    let v = chars_of(s);
    string_of(v.as_slice())
}

/// Whether `s` and `t` hold the same characters.
pub fn same_str(s: &str, t: &str) -> (r: bool)
    ensures
        r == (s@ == t@),
{
    let v = chars_of(s);
    same(v.as_slice(), t)
}

/// Whether the characters `s` are those of `t`.
pub fn same(s: &[char], t: &str) -> (r: bool)
    ensures
        r == (s@ == t@),
{
    let v = chars_of(t);
    same_chars(s, v.as_slice())
}

/// Whether two character slices are equal.
pub fn same_chars(s: &[char], t: &[char]) -> (r: bool)
    ensures
        r == (s@ == t@),
{
    if s.len() != t.len() {
        return false;
    }
    let mut i: usize = 0;
    while i < s.len()
        invariant
            i <= s.len(),
            s.len() == t.len(),
            forall|k: int| 0 <= k < i ==> s@[k] == t@[k],
        decreases s.len() - i,
    {
        if s[i] != t[i] {
            return false;
        }
        i += 1;
    }
    assert(s@ =~= t@);
    true
}

// --------------------------------------------------------------- classes --

/// ASCII whitespace: space, tab, line feed, form feed and carriage return.
pub open spec fn is_ascii_space(c: char) -> bool {
    c == ' ' || c == '\t' || c == '\n' || c == '\x0C' || c == '\r'
}

/// Unicode `White_Space`.
pub open spec fn is_space(c: char) -> bool {
    ||| '\t' <= c <= '\r'
    ||| c == ' '
    ||| c == '\u{85}'
    ||| c == '\u{A0}'
    ||| c == '\u{1680}'
    ||| '\u{2000}' <= c <= '\u{200A}'
    ||| c == '\u{2028}'
    ||| c == '\u{2029}'
    ||| c == '\u{202F}'
    ||| c == '\u{205F}'
    ||| c == '\u{3000}'
}

/// ASCII decimal digits.
pub open spec fn is_digit(c: char) -> bool {
    '0' <= c <= '9'
}

/// The value of an ASCII decimal digit.
pub open spec fn digit(c: char) -> nat {
    (c as int - '0' as int) as nat
}

/// Whether `c` is ASCII whitespace.
pub fn ascii_space(c: char) -> (r: bool)
    ensures
        r == is_ascii_space(c),
{
    c == ' ' || c == '\t' || c == '\n' || c == '\x0C' || c == '\r'
}

/// Whether `c` is Unicode whitespace.
pub fn space(c: char) -> (r: bool)
    ensures
        r == is_space(c),
{
    ('\t' <= c && c <= '\r') || c == ' ' || c == '\u{85}' || c == '\u{A0}' || c == '\u{1680}' || (
    '\u{2000}' <= c && c <= '\u{200A}') || c == '\u{2028}' || c == '\u{2029}' || c == '\u{202F}'
        || c == '\u{205F}' || c == '\u{3000}'
}

/// Whether `c` is an ASCII decimal digit.
pub fn ascii_digit(c: char) -> (r: bool)
    ensures
        r == is_digit(c),
{
    '0' <= c && c <= '9'
}

// ---------------------------------------------------------------- spans --

/// The decimal digits.
pub open spec fn digits() -> spec_fn(char) -> bool {
    |c: char| is_digit(c)
}

/// Length of the longest prefix of `s` whose characters all satisfy `p`.
pub open spec fn span(s: Seq<char>, p: spec_fn(char) -> bool) -> nat
    decreases s.len(),
{
    if s.len() > 0 && p(s[0]) {
        1 + span(s.skip(1), p)
    } else {
        0
    }
}

/// A prefix that satisfies `p` and cannot be extended has the length of the span.
pub proof fn lemma_span(s: Seq<char>, p: spec_fn(char) -> bool, n: nat)
    requires
        n <= s.len(),
        forall|k: int| 0 <= k < n ==> p(s[k]),
        n == s.len() || !p(s[n as int]),
    ensures
        span(s, p) == n,
    decreases n,
{
    if n > 0 {
        let t = s.skip(1);
        assert forall|k: int| 0 <= k < n - 1 implies p(t[k]) by {
            assert(t[k] == s[k + 1]);
        }
        lemma_span(t, p, (n - 1) as nat);
    }
}

/// The span is a prefix that satisfies `p` and cannot be extended.
pub proof fn lemma_span_is_longest(s: Seq<char>, p: spec_fn(char) -> bool)
    ensures
        span(s, p) <= s.len(),
        forall|k: int| 0 <= k < span(s, p) ==> p(#[trigger] s[k]),
        span(s, p) < s.len() ==> !p(s[span(s, p) as int]),
    decreases s.len(),
{
    if s.len() > 0 && p(s[0]) {
        let t = s.skip(1);
        lemma_span_is_longest(t, p);
        assert forall|k: int| 0 <= k < span(s, p) implies p(#[trigger] s[k]) by {
            if k > 0 {
                assert(t[k - 1] == s[k]);
            }
        }
    }
}

// ---------------------------------------------------------------- tokens --

/// The characters that are not ASCII whitespace.
pub open spec fn solid() -> spec_fn(char) -> bool {
    |c: char| !is_ascii_space(c)
}

/// The characters other than `c`.
pub open spec fn other_than(c: char) -> spec_fn(char) -> bool {
    |x: char| x != c
}

/// Length of the leading run of characters that are not ASCII whitespace.
pub open spec fn word_len(s: Seq<char>) -> nat {
    span(s, solid())
}

/// The non-empty pieces of `s` between runs of ASCII whitespace.
pub open spec fn tokens(s: Seq<char>) -> Seq<Seq<char>>
    decreases s.len(),
{
    proof {
        lemma_span_is_longest(s, solid());
    }
    if s.len() == 0 {
        seq![]
    } else if is_ascii_space(s[0]) {
        tokens(s.skip(1))
    } else {
        seq![s.take(word_len(s) as int)] + tokens(s.skip(word_len(s) as int))
    }
}

/// The contents of a vector of character slices.
pub open spec fn views(v: Seq<&[char]>) -> Seq<Seq<char>> {
    v.map_values(|x: &[char]| x@)
}

/// Splits `s` on ASCII whitespace.
pub fn split_tokens<'a>(s: &'a [char]) -> (out: Vec<&'a [char]>)
    ensures
        views(out@) == tokens(s@),
{
    let mut out: Vec<&'a [char]> = Vec::new();
    let mut i: usize = 0;
    assert(s@.skip(0) =~= s@);
    assert(views(out@) + tokens(s@) =~= tokens(s@));
    while i < s.len()
        invariant
            i <= s.len(),
            views(out@) + tokens(s@.skip(i as int)) == tokens(s@),
        decreases s.len() - i,
    {
        let ghost rest = s@.skip(i as int);
        proof {
            lemma_span_is_longest(rest, solid());
        }
        if ascii_space(s[i]) {
            assert(rest.skip(1) =~= s@.skip(i + 1));
            i += 1;
        } else {
            let start = i;
            while i < s.len() && !ascii_space(s[i])
                invariant
                    start <= i <= s.len(),
                    forall|k: int| start <= k < i ==> !is_ascii_space(s@[k]),
                decreases s.len() - i,
            {
                i += 1;
            }
            proof {
                lemma_span(rest, solid(), (i - start) as nat);
                assert(rest[0] == s@[start as int]);
                assert(rest.take(i - start) =~= s@.subrange(start as int, i as int));
                assert(rest.skip(i - start) =~= s@.skip(i as int));
            }
            let word = slice_subrange(s, start, i);
            let ghost before = views(out@);
            out.push(word);
            assert(views(out@) =~= before.push(word@));
            assert(views(out@) + tokens(s@.skip(i as int)) =~= before + tokens(rest));
        }
    }
    assert(s@.skip(i as int).len() == 0);
    assert(views(out@) + tokens(s@.skip(i as int)) =~= views(out@));
    out
}

// ----------------------------------------------------------------- lines --

/// Length of the leading run of characters that are not line feeds.
pub open spec fn line_len(s: Seq<char>) -> nat {
    span(s, other_than('\n'))
}

/// `l` without a trailing carriage return.
pub open spec fn strip_cr(l: Seq<char>) -> Seq<char> {
    if l.len() > 0 && l.last() == '\r' {
        l.drop_last()
    } else {
        l
    }
}

/// The lines of `s`: pieces ended by a line feed, or by a carriage return and
/// a line feed, without the terminator. The terminator of the last line is
/// optional, and a carriage return that no line feed follows is kept.
pub open spec fn lines(s: Seq<char>) -> Seq<Seq<char>>
    decreases s.len(),
{
    proof {
        lemma_span_is_longest(s, other_than('\n'));
    }
    if s.len() == 0 {
        seq![]
    } else if line_len(s) == s.len() {
        seq![s]
    } else {
        seq![strip_cr(s.take(line_len(s) as int))] + lines(s.skip(line_len(s) as int + 1))
    }
}

/// Splits `s` into lines.
pub fn split_lines<'a>(s: &'a [char]) -> (out: Vec<&'a [char]>)
    ensures
        views(out@) == lines(s@),
{
    let mut out: Vec<&'a [char]> = Vec::new();
    let mut i: usize = 0;
    assert(s@.skip(0) =~= s@);
    assert(views(out@) + lines(s@) =~= lines(s@));
    while i < s.len()
        invariant
            i <= s.len(),
            views(out@) + lines(s@.skip(i as int)) == lines(s@),
        decreases s.len() - i,
    {
        let ghost rest = s@.skip(i as int);
        let ghost before = views(out@);
        let start = i;
        while i < s.len() && s[i] != '\n'
            invariant
                start <= i <= s.len(),
                forall|k: int| start <= k < i ==> s@[k] != '\n',
            decreases s.len() - i,
        {
            i += 1;
        }
        proof {
            lemma_span(rest, other_than('\n'), (i - start) as nat);
            assert(rest.take(i - start) =~= s@.subrange(start as int, i as int));
        }
        if i == s.len() {
            let line = slice_subrange(s, start, i);
            assert(line@ =~= rest);
            out.push(line);
            assert(views(out@) =~= before.push(line@));
            assert(s@.skip(i as int).len() == 0);
            assert(views(out@) + lines(s@.skip(i as int)) =~= before + lines(rest));
        } else {
            let end = if i > start && s[i - 1] == '\r' {
                i - 1
            } else {
                i
            };
            let line = slice_subrange(s, start, end);
            assert(line@ =~= strip_cr(rest.take(i - start)));
            out.push(line);
            assert(views(out@) =~= before.push(line@));
            i += 1;
            assert(rest.skip(i - start) =~= s@.skip(i as int));
            assert(views(out@) + lines(s@.skip(i as int)) =~= before + lines(rest));
        }
    }
    assert(s@.skip(i as int).len() == 0);
    assert(views(out@) + lines(s@.skip(i as int)) =~= views(out@));
    out
}

// ------------------------------------------------------------------ trim --

/// `s` without leading whitespace.
pub open spec fn trim_start(s: Seq<char>) -> Seq<char>
    decreases s.len(),
{
    if s.len() > 0 && is_space(s[0]) {
        trim_start(s.skip(1))
    } else {
        s
    }
}

/// `s` without trailing whitespace.
pub open spec fn trim_end(s: Seq<char>) -> Seq<char>
    decreases s.len(),
{
    if s.len() > 0 && is_space(s.last()) {
        trim_end(s.drop_last())
    } else {
        s
    }
}

/// `s` without leading and trailing whitespace.
pub open spec fn trim(s: Seq<char>) -> Seq<char> {
    trim_end(trim_start(s))
}

/// Strips leading and trailing whitespace.
pub fn trimmed<'a>(s: &'a [char]) -> (r: &'a [char])
    ensures
        r@ == trim(s@),
{
    let mut i: usize = 0;
    assert(s@.skip(0) =~= s@);
    while i < s.len() && space(s[i])
        invariant
            i <= s.len(),
            trim_start(s@.skip(i as int)) == trim_start(s@),
        decreases s.len() - i,
    {
        assert(s@.skip(i as int).skip(1) =~= s@.skip(i + 1));
        i += 1;
    }
    let mut j: usize = s.len();
    assert(s@.subrange(i as int, j as int) =~= s@.skip(i as int));
    while j > i && space(s[j - 1])
        invariant
            i <= j <= s.len(),
            trim_end(s@.subrange(i as int, j as int)) == trim(s@),
        decreases j,
    {
        assert(s@.subrange(i as int, j as int).drop_last() =~= s@.subrange(i as int, j - 1));
        j -= 1;
    }
    slice_subrange(s, i, j)
}

// ---------------------------------------------------------------- search --

/// Position of the first `c` in `s`, or the length of `s`.
pub open spec fn first_index(s: Seq<char>, c: char) -> nat {
    span(s, other_than(c))
}

/// Whether `s` begins with `p`.
pub open spec fn starts_with(s: Seq<char>, p: Seq<char>) -> bool {
    p.len() <= s.len() && s.take(p.len() as int) == p
}

/// Whether `s` ends with `p`.
pub open spec fn ends_with(s: Seq<char>, p: Seq<char>) -> bool {
    p.len() <= s.len() && s.skip(s.len() - p.len()) == p
}

/// Finds the first `c`.
pub fn find(s: &[char], c: char) -> (r: Option<usize>)
    ensures
        match r {
            Some(i) => i == first_index(s@, c) && i < s@.len() && s@[i as int] == c,
            None => first_index(s@, c) == s@.len() && !s@.contains(c),
        },
{
    let mut i: usize = 0;
    while i < s.len()
        invariant
            i <= s.len(),
            forall|k: int| 0 <= k < i ==> s@[k] != c,
        decreases s.len() - i,
    {
        if s[i] == c {
            proof {
                lemma_span(s@, other_than(c), i as nat);
            }
            return Some(i);
        }
        i += 1;
    }
    proof {
        lemma_span(s@, other_than(c), i as nat);
    }
    None
}

/// Position of the last `c` in `s`, or -1.
pub open spec fn last_index(s: Seq<char>, c: char) -> int
    decreases s.len(),
{
    if s.len() == 0 {
        -1
    } else if s.last() == c {
        s.len() - 1
    } else {
        last_index(s.drop_last(), c)
    }
}

/// The first `c` is the one with no other before it.
pub proof fn lemma_first_index(s: Seq<char>, c: char, i: int)
    requires
        0 <= i < s.len(),
        s[i] == c,
        forall|k: int| 0 <= k < i ==> s[k] != c,
    ensures
        first_index(s, c) == i,
{
    lemma_span(s, other_than(c), i as nat);
}

/// The last `c` is the one with no other behind it.
pub proof fn lemma_last_index(s: Seq<char>, c: char, i: int)
    requires
        0 <= i < s.len(),
        s[i] == c,
        forall|k: int| i < k < s.len() ==> s[k] != c,
    ensures
        last_index(s, c) == i,
    decreases s.len(),
{
    if i < s.len() - 1 {
        assert(s.last() != c);
        lemma_last_index(s.drop_last(), c, i);
    }
}

/// Finds the last `c`.
pub fn find_last(s: &[char], c: char) -> (r: Option<usize>)
    ensures
        match r {
            Some(i) => i == last_index(s@, c) && i < s@.len() && s@[i as int] == c,
            None => last_index(s@, c) == -1,
        },
{
    let mut j: usize = s.len();
    assert(s@.take(j as int) =~= s@);
    while j > 0
        invariant
            j <= s.len(),
            last_index(s@.take(j as int), c) == last_index(s@, c),
        decreases j,
    {
        if s[j - 1] == c {
            return Some(j - 1);
        }
        assert(s@.take(j as int).drop_last() =~= s@.take(j - 1));
        j -= 1;
    }
    None
}

/// `s` without the prefix `p`, if it has it.
pub fn after_prefix<'a>(s: &'a [char], p: &str) -> (r: Option<&'a [char]>)
    ensures
        match r {
            Some(t) => starts_with(s@, p@) && t@ == s@.skip(p@.len() as int),
            None => !starts_with(s@, p@),
        },
{
    let v = chars_of(p);
    if v.len() > s.len() {
        return None;
    }
    let head = slice_subrange(s, 0, v.len());
    assert(head@ =~= s@.take(p@.len() as int));
    if same_chars(head, v.as_slice()) {
        let t = slice_subrange(s, v.len(), s.len());
        assert(t@ =~= s@.skip(p@.len() as int));
        Some(t)
    } else {
        None
    }
}

/// `s` without the suffix `p`, if it has it.
pub fn before_suffix<'a>(s: &'a [char], p: &str) -> (r: Option<&'a [char]>)
    ensures
        match r {
            Some(t) => ends_with(s@, p@) && t@ == s@.take(s@.len() - p@.len()),
            None => !ends_with(s@, p@),
        },
{
    let v = chars_of(p);
    if v.len() > s.len() {
        return None;
    }
    let cut = s.len() - v.len();
    let tail = slice_subrange(s, cut, s.len());
    assert(tail@ =~= s@.skip(s@.len() - p@.len()));
    if same_chars(tail, v.as_slice()) {
        let t = slice_subrange(s, 0, cut);
        assert(t@ =~= s@.take(s@.len() - p@.len()));
        Some(t)
    } else {
        None
    }
}

// ---------------------------------------------------------- line readers --

/// What `f` makes of the last line in which it finds something, or `none`.
pub open spec fn last_of<V>(ls: Seq<Seq<char>>, f: spec_fn(Seq<char>) -> Option<V>, none: V) -> V
    decreases ls.len(),
{
    if ls.len() == 0 {
        none
    } else {
        match f(ls.last()) {
            Some(v) => v,
            None => last_of(ls.drop_last(), f, none),
        }
    }
}

/// What `f` finds in each line in which it finds something, in order.
pub open spec fn all_of<V>(ls: Seq<Seq<char>>, f: spec_fn(Seq<char>) -> Option<V>) -> Seq<V>
    decreases ls.len(),
{
    if ls.len() == 0 {
        seq![]
    } else {
        match f(ls.last()) {
            Some(v) => all_of(ls.drop_last(), f).push(v),
            None => all_of(ls.drop_last(), f),
        }
    }
}

/// The contents of a list of strings.
pub open spec fn texts(v: Seq<String>) -> Seq<Seq<char>> {
    v.map_values(|s: String| s@)
}

/// `ls` without its first `n` lines.
pub open spec fn without_first(ls: Seq<Seq<char>>, n: int) -> Seq<Seq<char>> {
    if ls.len() <= n {
        seq![]
    } else {
        ls.skip(n)
    }
}

/// One more line.
pub proof fn lemma_take_line(ls: Seq<Seq<char>>, i: int)
    requires
        0 <= i < ls.len(),
    ensures
        ls.take(i + 1).drop_last() == ls.take(i),
        ls.take(i + 1).last() == ls[i],
        ls.take(i + 1).len() > 0,
{
    assert(ls.take(i + 1).drop_last() =~= ls.take(i));
}

/// A line in which nothing is found can as well be left out.
pub proof fn lemma_nothing_lost<V>(ls: Seq<Seq<char>>, f: spec_fn(Seq<char>) -> Option<V>, i: int)
    requires
        0 <= i < ls.len(),
        f(ls[i]) is None,
    ensures
        all_of(ls.remove(i), f) == all_of(ls, f),
    decreases ls.len(),
{
    let less = ls.remove(i);
    if i == ls.len() - 1 {
        assert(less =~= ls.drop_last());
    } else {
        lemma_nothing_lost(ls.drop_last(), f, i);
        assert(less.drop_last() =~= ls.drop_last().remove(i));
        assert(less.last() == ls.last());
    }
}

/// No token is empty.
pub proof fn lemma_tokens_not_empty(s: Seq<char>)
    ensures
        forall|i: int| 0 <= i < tokens(s).len() ==> (#[trigger] tokens(s)[i]).len() > 0,
    decreases s.len(),
{
    if s.len() == 0 {
        assert(tokens(s).len() == 0);
    } else {
        lemma_span_is_longest(s, solid());
        if is_ascii_space(s[0]) {
            lemma_tokens_not_empty(s.skip(1));
            assert(tokens(s) == tokens(s.skip(1)));
        } else {
            let n = word_len(s) as int;
            assert(n > 0);
            lemma_tokens_not_empty(s.skip(n));
            assert forall|i: int| 0 <= i < tokens(s).len() implies (#[trigger] tokens(s)[i]).len() > 0 by {
                if i > 0 {
                    assert(tokens(s)[i] == tokens(s.skip(n))[i - 1]);
                }
            }
        }
    }
}

} // verus!
