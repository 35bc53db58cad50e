//! System constants and formatting.
//!
//! `/proc/[pid]/stat` reports CPU time in clock ticks and memory in pages.
//! Neither unit is meaningful until the tick rate and the page size are known.
//! Both come from the auxiliary vector that the kernel hands every process, a
//! flat array of (key, value) pairs of 64-bit words that a zero key ends.

use vstd::prelude::*;
use vstd::string::*;

use crate::binary64::{law_small_products_are_exact, law_small_whole_numbers_are_exact, of_int, Binary64};
use crate::decimal::{fixed, law_whole_numbers_read_back, parse_real, push_fixed, read_real};
use crate::numbers::{dec, law_dec_reads_back, push_dec};
use crate::text::{
    after_prefix, ascii_digit, before_suffix, chars_of, ends_with, is_digit, is_space, lines, split_lines, starts_with, trim,
    trimmed, views,
};
use crate::time::Duration;

verus! {

/// Ends the auxiliary vector.
pub const AT_NULL: u64 = 0;

/// Key of the page size.
pub const AT_PAGESZ: u64 = 6;

/// Key of the tick rate.
pub const AT_CLKTCK: u64 = 17;

/// What the units in `/proc` stand for.
#[derive(Debug, Clone, Copy)]
pub struct SysConst {
    /// Clock ticks per second. CPU times in `/proc` are in these units.
    pub clk_tck: u64,
    /// Bytes per page. Resident sizes in `/proc/[pid]/stat` are in these units.
    pub page_size: u64,
    /// Number of online CPUs, from the `cpuN` lines of `/proc/stat`.
    pub ncpu: usize,
}

/// The order in which a machine stores the bytes of a word.
#[derive(Debug, Clone, Copy, PartialEq, Eq, Structural)]
pub enum ByteOrder {
    Little,
    Big,
}

// ------------------------------------------------------ auxiliary vector --

/// The 64-bit word at position `at`.
pub open spec fn word(b: Seq<u8>, at: int, order: ByteOrder) -> u64 {
    (match order {
        ByteOrder::Little => b[at] + 0x100 * b[at + 1] + 0x1_0000 * b[at + 2] + 0x100_0000 * b[at + 3]
            + 0x1_0000_0000 * b[at + 4] + 0x100_0000_0000 * b[at + 5] + 0x1_0000_0000_0000 * b[at + 6]
            + 0x100_0000_0000_0000 * b[at + 7],
        ByteOrder::Big => b[at + 7] + 0x100 * b[at + 6] + 0x1_0000 * b[at + 5] + 0x100_0000 * b[at + 4]
            + 0x1_0000_0000 * b[at + 3] + 0x100_0000_0000 * b[at + 2] + 0x1_0000_0000_0000 * b[at + 1]
            + 0x100_0000_0000_0000 * b[at],
    }) as u64
}

/// The last value that the pairs in `b`, up to the terminator, give to `key`;
/// `found` where they give none. An incomplete pair at the end is ignored.
pub open spec fn auxv_value(b: Seq<u8>, order: ByteOrder, key: u64, found: Option<u64>) -> Option<u64>
    decreases b.len(),
{
    if b.len() < 16 || word(b, 0, order) == AT_NULL {
        found
    } else {
        auxv_value(
            b.skip(16),
            order,
            key,
            if word(b, 0, order) == key {
                Some(word(b, 8, order))
            } else {
                found
            },
        )
    }
}

fn read_word(b: &[u8], at: usize, order: ByteOrder) -> (r: u64)
    requires
        at + 8 <= b@.len(),
    ensures
        r == word(b@, at as int, order),
{
    let n = b.len();
    assert(at + 8 <= n);
    match order {
        ByteOrder::Little => b[at] as u64 + 0x100 * b[at + 1] as u64 + 0x1_0000 * b[at + 2] as u64 + 0x100_0000
            * b[at + 3] as u64 + 0x1_0000_0000 * b[at + 4] as u64 + 0x100_0000_0000 * b[at + 5] as u64
            + 0x1_0000_0000_0000 * b[at + 6] as u64 + 0x100_0000_0000_0000 * b[at + 7] as u64,
        ByteOrder::Big => b[at + 7] as u64 + 0x100 * b[at + 6] as u64 + 0x1_0000 * b[at + 5] as u64 + 0x100_0000
            * b[at + 4] as u64 + 0x1_0000_0000 * b[at + 3] as u64 + 0x100_0000_0000 * b[at + 2] as u64
            + 0x1_0000_0000_0000 * b[at + 1] as u64 + 0x100_0000_0000_0000 * b[at] as u64,
    }
}

/// The tick rate and the page size that an auxiliary vector holds.
#[verifier::rlimit(40)]
pub fn parse_auxv(bytes: &[u8], order: ByteOrder) -> (r: (Option<u64>, Option<u64>))
    ensures
        r.0 == auxv_value(bytes@, order, AT_CLKTCK, None),
        r.1 == auxv_value(bytes@, order, AT_PAGESZ, None),
{
    let mut clk: Option<u64> = None;
    let mut page: Option<u64> = None;
    let mut i: usize = 0;
    assert(bytes@.skip(0) =~= bytes@);
    while bytes.len() - i >= 16
        invariant
            i <= bytes.len(),
            auxv_value(bytes@.skip(i as int), order, AT_CLKTCK, clk) == auxv_value(
                bytes@,
                order,
                AT_CLKTCK,
                None,
            ),
            auxv_value(bytes@.skip(i as int), order, AT_PAGESZ, page) == auxv_value(
                bytes@,
                order,
                AT_PAGESZ,
                None,
            ),
        decreases bytes.len() - i,
    {
        let ghost rest = bytes@.skip(i as int);
        let k = read_word(bytes, i, order);
        let v = read_word(bytes, i + 8, order);
        assert(word(rest, 0, order) == k && word(rest, 8, order) == v);
        assert(rest.skip(16) =~= bytes@.skip(i + 16));
        if k == AT_NULL {
            return (clk, page);
        }
        if k == AT_CLKTCK {
            clk = Some(v);
        } else if k == AT_PAGESZ {
            page = Some(v);
        }
        i += 16;
    }
    (clk, page)
}

// -------------------------------------------------------------- constants --

/// Whether a line of `/proc/stat` is that of one CPU. The aggregate line has a
/// space after the prefix, so requiring a digit there leaves it out.
pub open spec fn is_cpu_line(l: Seq<char>) -> bool {
    starts_with(l, "cpu"@) && "cpu"@.len() < l.len() && is_digit(l["cpu"@.len() as int])
}

/// The number of lines of single CPUs among `ls`.
pub open spec fn cpu_lines(ls: Seq<Seq<char>>) -> nat
    decreases ls.len(),
{
    if ls.len() == 0 {
        0
    } else {
        cpu_lines(ls.drop_last()) + if is_cpu_line(ls.last()) {
            1nat
        } else {
            0
        }
    }
}

/// The number of CPUs that `/proc/stat` lists, and one where it lists none.
pub open spec fn cpu_count(stat: Seq<char>) -> nat {
    let n = cpu_lines(lines(stat));
    if n == 0 {
        1
    } else {
        n
    }
}

/// Counts the `cpuN` lines in `/proc/stat`, taking at least one.
pub fn count_cpus(proc_stat: &str) -> (r: usize)
    ensures
        r == cpu_count(proc_stat@),
{
    let text = chars_of(proc_stat);
    let ls = split_lines(text.as_slice());
    let mut n: usize = 0;
    let mut i: usize = 0;
    while i < ls.len()
        invariant
            i <= ls.len(),
            n <= i,
            n == cpu_lines(views(ls@).take(i as int)),
        decreases ls.len() - i,
    {
        let l = ls[i];
        assert(views(ls@).take(i + 1).drop_last() =~= views(ls@).take(i as int));
        assert(views(ls@).take(i + 1).last() == l@);
        if let Some(rest) = after_prefix(l, "cpu") {
            if rest.len() > 0 && ascii_digit(rest[0]) {
                n += 1;
            }
        }
        i += 1;
    }
    assert(views(ls@).take(i as int) =~= views(ls@));
    if n == 0 {
        1
    } else {
        n
    }
}

/// A value that was found and is not zero, or the default.
pub open spec fn positive_or(v: Option<u64>, default: u64) -> u64 {
    match v {
        Some(n) => if n > 0 {
            n
        } else {
            default
        },
        None => default,
    }
}

/// The value that an auxiliary vector gives to `key`, where there is one.
pub open spec fn found_in(auxv: Option<Seq<u8>>, order: ByteOrder, key: u64) -> Option<u64> {
    match auxv {
        Some(b) => auxv_value(b, order, key, None),
        None => None,
    }
}

fn pick(v: Option<u64>, default: u64) -> (r: u64)
    ensures
        r == positive_or(v, default),
{
    match v {
        Some(n) => if n > 0 {
            n
        } else {
            default
        },
        None => default,
    }
}

/// The system constants, from the auxiliary vector and `/proc/stat` as far as
/// each could be read. The near-universal defaults stand in only for what the
/// vector does not say.
pub fn sys_const(auxv: Option<&[u8]>, order: ByteOrder, stat: Option<&str>) -> (r: SysConst)
    ensures
        ({
            let b: Option<Seq<u8>> = match auxv {
                Some(b) => Some(b@),
                None => None,
            };
            &&& r.clk_tck == positive_or(found_in(b, order, AT_CLKTCK), 100)
            &&& r.page_size == positive_or(found_in(b, order, AT_PAGESZ), 4096)
        }),
        r.clk_tck > 0,
        r.page_size > 0,
        r.ncpu == (match stat {
            Some(s) => cpu_count(s@),
            None => 1,
        }),
{
    let (clk, page) = match auxv {
        Some(b) => parse_auxv(b, order),
        None => (None, None),
    };
    let ncpu = match stat {
        Some(s) => count_cpus(s),
        None => 1,
    };
    SysConst { clk_tck: pick(clk, 100), page_size: pick(page, 4096), ncpu }
}

// ------------------------------------------------------------- formatting --

/// The suffix of the `i`-th power of 1024.
pub open spec fn suffix(i: nat) -> char {
    if i == 0 {
        'B'
    } else if i == 1 {
        'K'
    } else if i == 2 {
        'M'
    } else if i == 3 {
        'G'
    } else if i == 4 {
        'T'
    } else {
        'P'
    }
}

/// `v` divided by 1024 until it is below 1024 or the suffixes end, with the
/// number of divisions added to `i`.
pub open spec fn shrunk(v: Binary64, i: nat) -> (Binary64, nat)
    decreases 5 - i,
{
    if of_int(1024).le(v) && i < 5 {
        shrunk(v.quotient(of_int(1024)), i + 1)
    } else {
        (v, i)
    }
}

/// `n` bytes for a reader: a plain count below 1024, else three significant
/// digits or one decimal, and a suffix.
pub open spec fn bytes_text(n: nat) -> Seq<char> {
    let (v, i) = shrunk(of_int(n as int), 0);
    if n < 1024 {
        dec(n) + seq!['B']
    } else if of_int(100).le(v) {
        fixed(v, 0) + seq![suffix(i)]
    } else {
        fixed(v, 1) + seq![suffix(i)]
    }
}

/// Appends `n` bytes for a reader.
pub fn push_bytes(out: &mut String, n: u64)
    ensures
        final(out)@ == old(out)@ + bytes_text(n as nat),
{
    let ghost before = out@;
    if n < 1024 {
        push_dec(out, n as u128);
        out.push('B');
        assert(out@ =~= before + bytes_text(n as nat));
        return;
    }
    let kilo = Binary64::from_u64(1024);
    let mut v = Binary64::from_u64(n);
    let mut i: u8 = 0;
    while i < 5 && kilo.at_most(&v)
        invariant
            i <= 5,
            kilo == of_int(1024),
            shrunk(v, i as nat) == shrunk(of_int(n as int), 0),
        decreases 5 - i,
    {
        v = v.over(&kilo);
        i += 1;
    }
    assert(shrunk(v, i as nat) == (v, i as nat));
    let hundred = Binary64::from_u64(100);
    if hundred.at_most(&v) {
        push_fixed(out, &v, 0);
    } else {
        push_fixed(out, &v, 1);
    }
    let c = if i == 0 {
        'B'
    } else if i == 1 {
        'K'
    } else if i == 2 {
        'M'
    } else if i == 3 {
        'G'
    } else if i == 4 {
        'T'
    } else {
        'P'
    };
    out.push(c);
    assert(out@ =~= before + bytes_text(n as nat));
}

/// `n` bytes for a reader.
pub fn human_bytes(n: u64) -> (r: String)
    ensures
        r@ == bytes_text(n as nat),
{
    let mut r = String::new();
    push_bytes(&mut r, n);
    assert(Seq::<char>::empty() + bytes_text(n as nat) =~= bytes_text(n as nat));
    r
}

/// A rate for a reader; a dash stands for less than one byte per second.
pub open spec fn rate_text(v: Binary64) -> Seq<char> {
    if v.lt(of_int(1)) {
        seq!['-']
    } else {
        bytes_text(v.truncated(u64::MAX as nat)) + "/s"@
    }
}

/// A rate for a reader.
pub fn human_rate(bytes_per_sec: &Binary64) -> (r: String)
    ensures
        r@ == rate_text(*bytes_per_sec),
{
    let mut r = String::new();
    if bytes_per_sec.less(&Binary64::from_u64(1)) {
        r.push('-');
        assert(r@ =~= seq!['-']);
    } else {
        push_bytes(&mut r, bytes_per_sec.to_u64());
        r.append("/s");
        assert(r@ =~= rate_text(*bytes_per_sec));
    }
    r
}

// ---------------------------------------------------------------- reading --

/// The number and the multiplier in a size, from its suffix.
pub open spec fn size_parts(s: Seq<char>) -> (Seq<char>, nat) {
    if ends_with(s, "GB"@) {
        (s.take(s.len() - "GB"@.len()), 0x4000_0000)
    } else if ends_with(s, "G"@) {
        (s.take(s.len() - "G"@.len()), 0x4000_0000)
    } else if ends_with(s, "MB"@) {
        (s.take(s.len() - "MB"@.len()), 0x10_0000)
    } else if ends_with(s, "M"@) {
        (s.take(s.len() - "M"@.len()), 0x10_0000)
    } else if ends_with(s, "KB"@) {
        (s.take(s.len() - "KB"@.len()), 0x400)
    } else if ends_with(s, "K"@) {
        (s.take(s.len() - "K"@.len()), 0x400)
    } else if ends_with(s, "B"@) {
        (s.take(s.len() - "B"@.len()), 1)
    } else {
        (s, 1)
    }
}

/// `num` read as a number that is not negative, times `scale`, cut to a `u64`.
pub open spec fn scaled_whole(num: Seq<char>, scale: nat) -> Option<u64> {
    match parse_real(trim(num)) {
        Some(v) => if v.lt(of_int(0)) {
            None
        } else {
            Some(v.product(of_int(scale as int)).truncated(u64::MAX as nat) as u64)
        },
        None => None,
    }
}

/// The number of bytes that `s` writes.
pub open spec fn size(s: Seq<char>) -> Option<u64> {
    let (num, mult) = size_parts(trim(s));
    scaled_whole(num, mult)
}

fn read_scaled(num: &[char], scale: u64) -> (r: Option<u64>)
    ensures
        r == scaled_whole(num@, scale as nat),
{
    match read_real(trimmed(num)) {
        Some(v) => {
            if v.less(&Binary64::from_u64(0)) {
                return None;
            }
            Some(v.times(&Binary64::from_u64(scale)).to_u64())
        },
        None => None,
    }
}

/// Reads a size from characters.
pub fn read_size(text: &[char]) -> (r: Option<u64>)
    ensures
        r == size(text@),
{
    let s = trimmed(text);
    if let Some(p) = before_suffix(s, "GB") {
        return read_scaled(p, 0x4000_0000);
    }
    if let Some(p) = before_suffix(s, "G") {
        return read_scaled(p, 0x4000_0000);
    }
    if let Some(p) = before_suffix(s, "MB") {
        return read_scaled(p, 0x10_0000);
    }
    if let Some(p) = before_suffix(s, "M") {
        return read_scaled(p, 0x10_0000);
    }
    if let Some(p) = before_suffix(s, "KB") {
        return read_scaled(p, 0x400);
    }
    if let Some(p) = before_suffix(s, "K") {
        return read_scaled(p, 0x400);
    }
    if let Some(p) = before_suffix(s, "B") {
        return read_scaled(p, 1);
    }
    read_scaled(s, 1)
}

/// Reads sizes written as `500MB`, `2G`, `1024`.
pub fn parse_size(s: &str) -> (r: Option<u64>)
    ensures
        r == size(s@),
{
    let text = chars_of(s);
    read_size(text.as_slice())
}

/// The number and the milliseconds it counts in a duration, from its suffix.
pub open spec fn duration_parts(s: Seq<char>) -> (Seq<char>, nat) {
    if ends_with(s, "ms"@) {
        (s.take(s.len() - "ms"@.len()), 1)
    } else if ends_with(s, "s"@) {
        (s.take(s.len() - "s"@.len()), 1000)
    } else if ends_with(s, "m"@) {
        (s.take(s.len() - "m"@.len()), 60_000)
    } else if ends_with(s, "h"@) {
        (s.take(s.len() - "h"@.len()), 3_600_000)
    } else {
        (s, 1000)
    }
}

/// The duration that `s` writes, in whole milliseconds.
pub open spec fn duration(s: Seq<char>) -> Option<Duration> {
    let (num, scale) = duration_parts(trim(s));
    match scaled_whole(num, scale) {
        Some(ms) => Some(Duration { nanos: (ms * 1_000_000) as u128 }),
        None => None,
    }
}

/// Reads a duration from characters.
pub fn read_duration(text: &[char]) -> (r: Option<Duration>)
    ensures
        r == duration(text@),
{
    let s = trimmed(text);
    let ms = if let Some(p) = before_suffix(s, "ms") {
        read_scaled(p, 1)
    } else if let Some(p) = before_suffix(s, "s") {
        read_scaled(p, 1000)
    } else if let Some(p) = before_suffix(s, "m") {
        read_scaled(p, 60_000)
    } else if let Some(p) = before_suffix(s, "h") {
        read_scaled(p, 3_600_000)
    } else {
        read_scaled(s, 1000)
    };
    match ms {
        Some(n) => Some(Duration::from_millis(n)),
        None => None,
    }
}

/// Reads durations written as `5s`, `2m`, `500ms`, `30`.
pub fn parse_duration(s: &str) -> (r: Option<Duration>)
    ensures
        r == duration(s@),
{
    let text = chars_of(s);
    read_duration(text.as_slice())
}

// ------------------------------------------------------------------ laws --

/// The number of bytes that a suffix stands for.
pub open spec fn size_unit(u: Seq<char>) -> Option<nat> {
    if u == "GB"@ || u == "G"@ {
        Some(0x4000_0000)
    } else if u == "MB"@ || u == "M"@ {
        Some(0x10_0000)
    } else if u == "KB"@ || u == "K"@ {
        Some(0x400)
    } else if u == "B"@ || u == ""@ {
        Some(1)
    } else {
        None
    }
}

/// The number of milliseconds that a suffix stands for; without one a number
/// counts seconds.
pub open spec fn duration_unit(u: Seq<char>) -> Option<nat> {
    if u == "ms"@ {
        Some(1)
    } else if u == "s"@ || u == ""@ {
        Some(1000)
    } else if u == "m"@ {
        Some(60_000)
    } else if u == "h"@ {
        Some(3_600_000)
    } else {
        None
    }
}

proof fn lemma_ends_in_one(s: Seq<char>, p: Seq<char>)
    requires
        p.len() == 1,
    ensures
        ends_with(s, p) <==> s.len() > 0 && s.last() == p[0],
{
    if s.len() > 0 {
        assert(s.skip(s.len() - 1)[0] == s.last());
        if s.last() == p[0] {
            assert(s.skip(s.len() - 1) =~= p);
        }
    }
}

proof fn lemma_ends_in_two(s: Seq<char>, p: Seq<char>)
    requires
        p.len() == 2,
    ensures
        ends_with(s, p) <==> s.len() > 1 && s.last() == p[1] && s[s.len() - 2] == p[0],
{
    if s.len() > 1 {
        let t = s.skip(s.len() - 2);
        assert(t[0] == s[s.len() - 2] && t[1] == s.last());
        if s.last() == p[1] && s[s.len() - 2] == p[0] {
            assert(t =~= p);
        }
    }
}

/// A number in decimal followed by a suffix, and its last characters.
proof fn lemma_suffixed(n: nat, u: Seq<char>)
    requires
        u.len() <= 2,
        forall|i: int| 0 <= i < u.len() ==> !is_space(#[trigger] u[i]),
    ensures
        trim(dec(n) + u) == dec(n) + u,
        trim(dec(n)) == dec(n),
        (dec(n) + u).take((dec(n) + u).len() - u.len()) == dec(n),
        u.len() == 0 ==> is_digit((dec(n) + u).last()),
        u.len() == 1 ==> (dec(n) + u).last() == u[0] && is_digit((dec(n) + u)[(dec(n) + u).len() - 2]),
        u.len() == 2 ==> (dec(n) + u).last() == u[1] && (dec(n) + u)[(dec(n) + u).len() - 2] == u[0],
        dec(n).len() > 0,
{
    law_dec_reads_back(n);
    let d = dec(n);
    let s = d + u;
    assert(is_digit(d[0]) && is_digit(d.last()));
    assert(s[0] == d[0]);
    if u.len() > 0 {
        assert(s.last() == u.last());
        assert(!is_space(u[u.len() - 1]));
    } else {
        assert(s =~= d);
    }
    assert(s.take(s.len() - u.len()) =~= d);
    if u.len() == 1 {
        assert(s[s.len() - 2] == d.last());
    }
}

/// Whole sizes are read exactly, with every suffix, up to 53 bits.
pub proof fn law_whole_sizes_are_exact(n: nat, u: Seq<char>)
    requires
        size_unit(u) is Some,
        n * size_unit(u)->0 < 0x20_0000_0000_0000,
    ensures
        size(dec(n) + u) == Some((n * size_unit(u)->0) as u64),
{
    reveal_strlit("GB");
    reveal_strlit("G");
    reveal_strlit("MB");
    reveal_strlit("M");
    reveal_strlit("KB");
    reveal_strlit("K");
    reveal_strlit("B");
    reveal_strlit("");
    let k = size_unit(u)->0;
    let s = dec(n) + u;
    assert(u.len() <= 2);
    assert forall|i: int| 0 <= i < u.len() implies !is_space(#[trigger] u[i]) by {}
    lemma_suffixed(n, u);
    lemma_ends_in_two(s, "GB"@);
    lemma_ends_in_one(s, "G"@);
    lemma_ends_in_two(s, "MB"@);
    lemma_ends_in_one(s, "M"@);
    lemma_ends_in_two(s, "KB"@);
    lemma_ends_in_one(s, "K"@);
    lemma_ends_in_one(s, "B"@);
    assert(s.take(s.len() as int) =~= s);
    assert(size_parts(s) == (dec(n), k));
    lemma_scaled_whole(n, k);
}

proof fn lemma_scaled_whole(n: nat, k: nat)
    requires
        0 < k < 0x20_0000_0000_0000,
        n * k < 0x20_0000_0000_0000,
    ensures
        scaled_whole(dec(n), k) == Some((n * k) as u64),
{
    assert(n < 0x20_0000_0000_0000) by (nonlinear_arith)
        requires
            n * k < 0x20_0000_0000_0000,
            k > 0,
    ;
    assert(dec(n) + Seq::<char>::empty() =~= dec(n));
    lemma_suffixed(n, Seq::empty());
    law_whole_numbers_read_back(n);
    law_small_whole_numbers_are_exact(n);
    law_small_whole_numbers_are_exact(0);
    law_small_products_are_exact(n, k);
}

/// Whole durations are read exactly, with every suffix, up to 53 bits of
/// milliseconds.
pub proof fn law_whole_durations_are_exact(n: nat, u: Seq<char>)
    requires
        duration_unit(u) is Some,
        n * duration_unit(u)->0 < 0x20_0000_0000_0000,
    ensures
        duration(dec(n) + u) == Some(
            Duration { nanos: (n * duration_unit(u)->0 * 1_000_000) as u128 },
        ),
{
    reveal_strlit("ms");
    reveal_strlit("s");
    reveal_strlit("m");
    reveal_strlit("h");
    reveal_strlit("");
    let k = duration_unit(u)->0;
    let s = dec(n) + u;
    assert(u.len() <= 2);
    assert forall|i: int| 0 <= i < u.len() implies !is_space(#[trigger] u[i]) by {}
    lemma_suffixed(n, u);
    lemma_ends_in_two(s, "ms"@);
    lemma_ends_in_one(s, "s"@);
    lemma_ends_in_one(s, "m"@);
    lemma_ends_in_one(s, "h"@);
    assert(s.take(s.len() as int) =~= s);
    assert(duration_parts(s) == (dec(n), k));
    lemma_scaled_whole(n, k);
}

/// Byte `i` of `n`, the lowest first.
pub open spec fn byte_of(n: u64, i: int) -> u64
    decreases i,
{
    if i <= 0 {
        n % 0x100
    } else {
        byte_of(n / 0x100, i - 1)
    }
}

/// A word is read in the order of its bytes: the lowest first where the order is
/// little, and last where it is big.
pub proof fn law_words_are_read_in_their_byte_order(n: u64, b: Seq<u8>, at: int)
    requires
        0 <= at,
        at + 8 <= b.len(),
    ensures
        (forall|i: int| 0 <= i < 8 ==> b[at + i] == #[trigger] byte_of(n, i)) ==> word(
            b,
            at,
            ByteOrder::Little,
        ) == n,
        (forall|i: int| 0 <= i < 8 ==> b[at + 7 - i] == #[trigger] byte_of(n, i)) ==> word(
            b,
            at,
            ByteOrder::Big,
        ) == n,
{
    lemma_bytes_of(n);
    if forall|i: int| 0 <= i < 8 ==> b[at + i] == #[trigger] byte_of(n, i) {
        assert(b[at + 0] == byte_of(n, 0));
        assert(b[at + 1] == byte_of(n, 1));
        assert(b[at + 2] == byte_of(n, 2));
        assert(b[at + 3] == byte_of(n, 3));
        assert(b[at + 4] == byte_of(n, 4));
        assert(b[at + 5] == byte_of(n, 5));
        assert(b[at + 6] == byte_of(n, 6));
        assert(b[at + 7] == byte_of(n, 7));
    }
    if forall|i: int| 0 <= i < 8 ==> b[at + 7 - i] == #[trigger] byte_of(n, i) {
        assert(b[at + 7 - 0] == byte_of(n, 0));
        assert(b[at + 7 - 1] == byte_of(n, 1));
        assert(b[at + 7 - 2] == byte_of(n, 2));
        assert(b[at + 7 - 3] == byte_of(n, 3));
        assert(b[at + 7 - 4] == byte_of(n, 4));
        assert(b[at + 7 - 5] == byte_of(n, 5));
        assert(b[at + 7 - 6] == byte_of(n, 6));
        assert(b[at + 7 - 7] == byte_of(n, 7));
    }
}

proof fn lemma_bytes_of(n: u64)
    ensures
        n == byte_of(n, 0) + 0x100 * byte_of(n, 1) + 0x1_0000 * byte_of(n, 2) + 0x100_0000 * byte_of(n, 3)
            + 0x1_0000_0000 * byte_of(n, 4) + 0x100_0000_0000 * byte_of(n, 5) + 0x1_0000_0000_0000 * byte_of(
            n,
            6,
        ) + 0x100_0000_0000_0000 * byte_of(n, 7),
{
    reveal_with_fuel(byte_of, 9);
    let q1 = n / 0x100;
    let q2 = q1 / 0x100;
    let q3 = q2 / 0x100;
    let q4 = q3 / 0x100;
    let q5 = q4 / 0x100;
    let q6 = q5 / 0x100;
    let q7 = q6 / 0x100;
    assert(n == 0x100 * q1 + n % 0x100);
    assert(q1 == 0x100 * q2 + q1 % 0x100);
    assert(q2 == 0x100 * q3 + q2 % 0x100);
    assert(q3 == 0x100 * q4 + q3 % 0x100);
    assert(q4 == 0x100 * q5 + q4 % 0x100);
    assert(q5 == 0x100 * q6 + q5 % 0x100);
    assert(q6 == 0x100 * q7 + q6 % 0x100);
    assert(q7 < 0x100 && q7 % 0x100 == q7);
}

/// Each entry of the auxiliary vector is a key and its value. The last value of a
/// key counts; an entry with another key changes nothing, the entry zero is the
/// end, and so is one that is cut short. The clock ticks have the key 17, and the
/// page size has 6.
pub proof fn law_each_entry_has_its_key(b: Seq<u8>, order: ByteOrder, key: u64)
    requires
        key != 0,
    ensures
        b.len() < 16 ==> auxv_value(b, order, key, None) is None,
        b.len() >= 16 && word(b, 0, order) == 0 ==> auxv_value(b, order, key, None) is None,
        b.len() >= 16 && word(b, 0, order) != 0 && word(b, 0, order) != key ==> auxv_value(b, order, key, None)
            == auxv_value(b.skip(16), order, key, None),
        b.len() >= 16 && word(b, 0, order) == key ==> auxv_value(b, order, key, None) == match auxv_value(
            b.skip(16),
            order,
            key,
            None,
        ) {
            Some(v) => Some(v),
            None => Some(word(b, 8, order)),
        },
        AT_CLKTCK == 17,
        AT_PAGESZ == 6,
{
    if b.len() >= 16 {
        lemma_last_counts(b.skip(16), order, key, word(b, 8, order));
    }
}

proof fn lemma_last_counts(b: Seq<u8>, order: ByteOrder, key: u64, v: u64)
    ensures
        auxv_value(b, order, key, Some(v)) == match auxv_value(b, order, key, None) {
            Some(x) => Some(x),
            None => Some(v),
        },
    decreases b.len(),
{
    if b.len() >= 16 && word(b, 0, order) != AT_NULL {
        lemma_last_counts(b.skip(16), order, key, v);
        lemma_last_counts(b.skip(16), order, key, word(b, 8, order));
    }
}

/// What the kernel does not say, or says to be zero, is what is usual.
pub proof fn law_constants_have_defaults(v: u64, default: u64)
    ensures
        v > 0 ==> positive_or(Some(v), default) == v,
        positive_or(Some(0u64), default) == default,
        positive_or(None, default) == default,
{
}

/// Whether a text begins like a number and ends like one.
pub open spec fn looks_like_a_number(s: Seq<char>) -> bool {
    &&& s.len() > 0
    &&& is_digit(s[0]) || s[0] == '.' || s[0] == '-' || s[0] == '+'
    &&& is_digit(s.last()) || s.last() == '.'
}

proof fn lemma_number_and_unit(num: Seq<char>, u: Seq<char>)
    requires
        looks_like_a_number(num),
        u.len() <= 2,
        forall|i: int| 0 <= i < u.len() ==> !is_space(#[trigger] u[i]),
    ensures
        trim(num + u) == num + u,
        trim(num) == num,
        (num + u).take((num + u).len() - u.len()) == num,
        u.len() == 0 ==> (num + u).last() == num.last(),
        u.len() == 1 ==> (num + u).last() == u[0] && (num + u)[(num + u).len() - 2] == num.last(),
        u.len() == 2 ==> (num + u).last() == u[1] && (num + u)[(num + u).len() - 2] == u[0],
{
    let s = num + u;
    assert(s[0] == num[0]);
    if u.len() > 0 {
        assert(s.last() == u.last());
        assert(!is_space(u[u.len() - 1]));
    } else {
        assert(s =~= num);
    }
    assert(s.take(s.len() - u.len()) =~= num);
    if u.len() == 1 {
        assert(s[s.len() - 2] == num.last());
    }
}

/// Any number with a unit of size is that many units in whole bytes, what is less
/// than a byte cut off. A negative number is no size.
pub proof fn law_sizes_are_cut_to_whole_bytes(num: Seq<char>, u: Seq<char>, k: nat)
    requires
        looks_like_a_number(num),
        ({
            ||| (u == "GB"@ || u == "G"@) && k == 1024 * 1024 * 1024
            ||| (u == "MB"@ || u == "M"@) && k == 1024 * 1024
            ||| (u == "KB"@ || u == "K"@) && k == 1024
            ||| (u == "B"@ || u == ""@) && k == 1
        }),
    ensures
        size(num + u) == match parse_real(num) {
            None => None,
            Some(v) => if v.lt(of_int(0)) {
                None
            } else {
                Some(v.product(of_int(k as int)).truncated(u64::MAX as nat) as u64)
            },
        },
{
    reveal_strlit("GB");
    reveal_strlit("G");
    reveal_strlit("MB");
    reveal_strlit("M");
    reveal_strlit("KB");
    reveal_strlit("K");
    reveal_strlit("B");
    reveal_strlit("");
    let s = num + u;
    assert forall|i: int| 0 <= i < u.len() implies !is_space(#[trigger] u[i]) by {}
    lemma_number_and_unit(num, u);
    lemma_ends_in_two(s, "GB"@);
    lemma_ends_in_one(s, "G"@);
    lemma_ends_in_two(s, "MB"@);
    lemma_ends_in_one(s, "M"@);
    lemma_ends_in_two(s, "KB"@);
    lemma_ends_in_one(s, "K"@);
    lemma_ends_in_one(s, "B"@);
    assert(s.take(s.len() as int) =~= s);
    assert(size_parts(s) == (num, k));
}

/// Any number with a unit of time is that long in whole milliseconds, what is less
/// than one cut off. A negative number is no duration.
pub proof fn law_durations_are_cut_to_milliseconds(num: Seq<char>, u: Seq<char>, k: nat)
    requires
        looks_like_a_number(num),
        ({
            ||| u == "ms"@ && k == 1
            ||| (u == "s"@ || u == ""@) && k == 1_000
            ||| u == "m"@ && k == 60 * 1_000
            ||| u == "h"@ && k == 60 * 60 * 1_000
        }),
    ensures
        duration(num + u) == match parse_real(num) {
            None => None,
            Some(v) => if v.lt(of_int(0)) {
                None
            } else {
                Some(
                    Duration {
                        nanos: (v.product(of_int(k as int)).truncated(u64::MAX as nat) * 1_000_000) as u128,
                    },
                )
            },
        },
{
    reveal_strlit("ms");
    reveal_strlit("s");
    reveal_strlit("m");
    reveal_strlit("h");
    reveal_strlit("");
    let s = num + u;
    assert forall|i: int| 0 <= i < u.len() implies !is_space(#[trigger] u[i]) by {}
    lemma_number_and_unit(num, u);
    lemma_ends_in_two(s, "ms"@);
    lemma_ends_in_one(s, "s"@);
    lemma_ends_in_one(s, "m"@);
    lemma_ends_in_one(s, "h"@);
    assert(s.take(s.len() as int) =~= s);
    assert(duration_parts(s) == (num, k));
    if parse_real(num) is Some {
        let t = (parse_real(num)->0).product(of_int(k as int)).truncated(u64::MAX as nat);
        assert(t <= u64::MAX);
    }
}

} // verus!
