//! Reading binary64 numbers from decimal text and writing them.

use vstd::arithmetic::div_mod::*;
use vstd::arithmetic::mul::*;
use vstd::arithmetic::power2::*;
use vstd::prelude::*;
use vstd::slice::slice_subrange;
use vstd::string::*;

use crate::binary64::{
    decode, encode, excess, half_even, lemma_cancel, lemma_consts, lemma_excess_at_least, lemma_half_even_ratio, nearest,
    nearest_bits, of_int, one_units, two_to, Binary64, INFINITY, NOT_A_NUMBER, SIGN,
};
use crate::natural::Natural;
use crate::numbers::{
    all_digits, dec, dec_padded, law_dec_reads_back, number, pow10, push_dec, push_dec_padded, skip_plus, unplussed,
};
use crate::text::{ascii_digit, digits, is_digit, lemma_span, same, span};

verus! {

// --------------------------------------------------------------- reading --

/// What the text of a number says.
pub enum Literal {
    NotANumber,
    Infinite,
    /// `digits`, read as a whole number, times ten to the power `exponent`.
    Decimal { digits: Seq<char>, exponent: int },
}

/// Length of the leading run of digits.
pub open spec fn digit_len(s: Seq<char>) -> nat {
    span(s, digits())
}

/// A non-empty run of digits, of any length.
pub open spec fn whole(s: Seq<char>) -> Option<int> {
    if s.len() > 0 && all_digits(s) {
        Some(number(s) as int)
    } else {
        None
    }
}

/// The exponent that follows an `e`: digits after an optional sign.
pub open spec fn parse_exponent(s: Seq<char>) -> Option<int> {
    if s.len() > 0 && s[0] == '-' {
        match whole(s.skip(1)) {
            Some(n) => Some(-n),
            None => None,
        }
    } else {
        whole(unplussed(s))
    }
}

/// Whether a fraction begins at the end of the leading digits of `s`.
pub open spec fn has_point(s: Seq<char>) -> bool {
    let a = digit_len(s) as int;
    a < s.len() && s[a] == '.'
}

/// The number of digits after the point.
pub open spec fn fraction_len(s: Seq<char>) -> nat {
    if has_point(s) {
        digit_len(s.skip(digit_len(s) as int + 1))
    } else {
        0
    }
}

/// The digits before and after the point, run together.
pub open spec fn significant(s: Seq<char>) -> Seq<char> {
    let a = digit_len(s) as int;
    if has_point(s) {
        s.take(a) + s.skip(a + 1).take(fraction_len(s) as int)
    } else {
        s.take(a)
    }
}

/// What follows the digits and the point.
pub open spec fn tail(s: Seq<char>) -> Seq<char> {
    let a = digit_len(s) as int;
    if has_point(s) {
        s.skip(a + 1).skip(fraction_len(s) as int)
    } else {
        s.skip(a)
    }
}

/// Digits with an optional point among or around them, and an optional
/// exponent.
pub open spec fn parse_number(s: Seq<char>) -> Option<Literal> {
    let rest = tail(s);
    if significant(s).len() == 0 {
        None
    } else if rest.len() == 0 {
        Some(Literal::Decimal { digits: significant(s), exponent: -fraction_len(s) })
    } else if rest[0] == 'e' || rest[0] == 'E' {
        match parse_exponent(rest.skip(1)) {
            Some(x) => Some(
                Literal::Decimal { digits: significant(s), exponent: x - fraction_len(s) },
            ),
            None => None,
        }
    } else {
        None
    }
}

/// An ASCII letter in lower case; any other character unchanged.
pub open spec fn lower(c: char) -> char {
    if 'A' <= c <= 'Z' {
        (c as u8 + 32) as u8 as char
    } else {
        c
    }
}

/// `s` with its ASCII letters in lower case.
pub open spec fn lowered(s: Seq<char>) -> Seq<char> {
    s.map_values(|c: char| lower(c))
}

/// `inf`, `infinity` and `nan`, in upper or lower case.
pub open spec fn parse_word(s: Seq<char>) -> Option<Literal> {
    if lowered(s) == "inf"@ || lowered(s) == "infinity"@ {
        Some(Literal::Infinite)
    } else if lowered(s) == "nan"@ {
        Some(Literal::NotANumber)
    } else {
        None
    }
}

/// A number without its sign.
pub open spec fn parse_literal(s: Seq<char>) -> Option<Literal> {
    match parse_number(s) {
        Some(l) => Some(l),
        None => parse_word(s),
    }
}

/// The encoding nearest to `m` times ten to the power `e`.
pub open spec fn scaled_bits(m: nat, e: int) -> nat {
    if e >= 0 {
        nearest(m * pow10(e as nat) * one_units(), 1)
    } else {
        nearest(m * one_units(), pow10((-e) as nat))
    }
}

/// The encoding of what a literal says, the sign left aside.
pub open spec fn literal_bits(l: Literal) -> nat {
    match l {
        Literal::NotANumber => NOT_A_NUMBER as nat,
        Literal::Infinite => INFINITY as nat,
        Literal::Decimal { digits, exponent } => scaled_bits(number(digits), exponent),
    }
}

/// `s` without a leading sign.
pub open spec fn unsigned(s: Seq<char>) -> Seq<char> {
    if s.len() > 0 && (s[0] == '-' || s[0] == '+') {
        s.skip(1)
    } else {
        s
    }
}

/// The binary64 number nearest to what `s` writes: an optional sign before a
/// decimal number, `inf`, `infinity` or `nan`.
pub open spec fn parse_real(s: Seq<char>) -> Option<Binary64> {
    match parse_literal(unsigned(s)) {
        Some(l) => Some(encode(s.len() > 0 && s[0] == '-', literal_bits(l))),
        None => None,
    }
}

// ------------------------------------------------ very large, very small --

proof fn lemma_pow10_adds(a: nat, b: nat)
    ensures
        pow10(a + b) == pow10(a) * pow10(b),
    decreases b,
{
    if b > 0 {
        lemma_pow10_adds(a, (b - 1) as nat);
        let x = pow10(a);
        let y = pow10((b - 1) as nat);
        assert(10 * (x * y) == x * (10 * y)) by (nonlinear_arith);
    } else {
        assert(pow10(a) * 1 == pow10(a)) by (nonlinear_arith);
    }
}

pub proof fn lemma_pow10_positive(n: nat)
    ensures
        pow10(n) > 0,
    decreases n,
{
    if n > 0 {
        lemma_pow10_positive((n - 1) as nat);
    }
}

proof fn lemma_pow10_beyond_pow2(j: nat)
    ensures
        pow10(10 * j) >= pow2(33 * j),
    decreases j,
{
    lemma2_to64();
    lemma2_to64_rest();
    if j > 0 {
        let i = (j - 1) as nat;
        lemma_pow10_beyond_pow2(i);
        lemma_pow10_adds(10 * i, 10);
        lemma_pow2_adds(33 * i, 33);
        reveal_with_fuel(pow10, 11);
        assert(pow10(10) == 10_000_000_000);
        let a = pow10(10 * i);
        let b = pow2(33 * i);
        assert(pow2(33) == 0x2_0000_0000);
        assert(a * 10_000_000_000 >= b * 0x2_0000_0000) by (nonlinear_arith)
            requires
                a >= b,
        ;
    }
}

proof fn lemma_number_bound(s: Seq<char>)
    requires
        all_digits(s),
    ensures
        number(s) < pow10(s.len()),
    decreases s.len(),
{
    if s.len() > 0 {
        assert(is_digit(s.last()));
        assert(all_digits(s.drop_last())) by {
            assert forall|k: int| 0 <= k < s.len() - 1 implies is_digit(
                #[trigger] s.drop_last()[k],
            ) by {
                assert(s.drop_last()[k] == s[k]);
            }
        }
        lemma_number_bound(s.drop_last());
    }
}

/// Beyond the four-hundredth power of ten every number but zero is infinite.
proof fn lemma_huge(m: nat, e: int)
    requires
        e > 400,
    ensures
        scaled_bits(m, e) == if m == 0 {
            0
        } else {
            INFINITY as nat
        },
{
    lemma_consts();
    let w = one_units();
    let t = pow10(e as nat);
    if m == 0 {
        assert(0 * t * w == 0) by (nonlinear_arith);
        assert(half_even(0, 1 * pow2(0)) == 0);
    } else {
        lemma_pow10_beyond_pow2(40);
        lemma_pow10_adds(400, (e - 400) as nat);
        lemma_pow10_positive((e - 400) as nat);
        let a = pow10(400);
        let b = pow10((e - 400) as nat);
        lemma_pow2_adds(1320, 1074);
        lemma_pow2_pos(1074);
        lemma_pow2_strictly_increases(2099, 2394);
        let x = m * t * w;
        assert(t >= a) by (nonlinear_arith)
            requires
                t == a * b,
                b > 0,
        ;
        assert(x >= a * w) by (nonlinear_arith)
            requires
                x == m * t * w,
                m > 0,
                t >= a,
                a >= 0,
                w >= 0,
        ;
        assert(a * w >= pow2(1320) * w) by (nonlinear_arith)
            requires
                a >= pow2(1320),
        ;
        assert(x / 1 == x);
        lemma_excess_at_least(x, 2047);
        let k = excess(x);
        assert(k * 0x10_0000_0000_0000 >= 2047 * 0x10_0000_0000_0000) by (nonlinear_arith)
            requires
                k >= 2047,
        ;
    }
}

/// Far enough below one every number is zero.
proof fn lemma_tiny(s: Seq<char>, e: int)
    requires
        all_digits(s),
        e < -(400 + s.len()),
    ensures
        scaled_bits(number(s), e) == 0,
{
    lemma_consts();
    lemma_number_bound(s);
    let w = one_units();
    let l = s.len();
    let m = number(s);
    let d = pow10((-e) as nat);
    let j = (-e - 400 - l) as nat;
    lemma_pow10_beyond_pow2(40);
    lemma_pow10_adds(400, l);
    lemma_pow10_adds(400 + l, j);
    lemma_pow10_positive(j);
    lemma_pow10_positive(l);
    lemma_pow10_positive((-e) as nat);
    lemma_pow2_strictly_increases(1075, 1320);
    lemma_pow2_unfold(1075);
    let a = pow10(400);
    let b = pow10(l);
    let c = pow10(j);
    assert(2 * (m * w) < d) by (nonlinear_arith)
        requires
            d == (a * b) * c,
            c >= 1,
            m < b,
            a > 2 * w,
            m >= 0,
            w >= 0,
    ;
    lemma_basic_div((m * w) as int, d as int);
    lemma_small_mod(m * w, d);
    assert(d * pow2(0) == d);
}

// --------------------------------------------------------------- execution --

/// The number of leading digits.
fn count_digits(s: &[char]) -> (n: usize)
    ensures
        n == digit_len(s@),
        n <= s@.len(),
        forall|k: int| 0 <= k < n ==> is_digit(#[trigger] s@[k]),
{
    let mut n: usize = 0;
    while n < s.len() && ascii_digit(s[n])
        invariant
            n <= s.len(),
            forall|k: int| 0 <= k < n ==> is_digit(#[trigger] s@[k]),
        decreases s.len() - n,
    {
        n += 1;
    }
    proof {
        lemma_span(s@, digits(), n as nat);
    }
    n
}

/// Beyond this an exponent is not told from any larger one.
pub const EXPONENT_CAP: i128 = 0x1_0000_0000_0000_0000_0000;

/// `x` stands for the exponent `e`: it is `e`, or both are beyond `cap`.
spec fn stands_for(x: i128, e: int, cap: int) -> bool {
    ||| x == e
    ||| x >= cap && e >= cap
    ||| x <= -cap && e <= -cap
}

fn read_whole(s: &[char]) -> (r: Option<i128>)
    ensures
        match r {
            Some(x) => whole(s@) is Some && stands_for(x, whole(s@)->0, EXPONENT_CAP as int) && 0 <= x <= EXPONENT_CAP * 16,
            None => whole(s@) is None,
        },
{
    if s.len() == 0 {
        return None;
    }
    let mut x: i128 = 0;
    let mut i: usize = 0;
    while i < s.len()
        invariant
            i <= s.len(),
            0 <= x <= EXPONENT_CAP * 16,
            x == number(s@.take(i as int)) || (x >= EXPONENT_CAP && number(s@.take(i as int))
                >= EXPONENT_CAP),
            forall|k: int| 0 <= k < i ==> is_digit(#[trigger] s@[k]),
        decreases s.len() - i,
    {
        let c = s[i];
        if !ascii_digit(c) {
            return None;
        }
        assert(s@.take(i + 1).drop_last() =~= s@.take(i as int));
        if x < EXPONENT_CAP {
            x = x * 10 + (c as u32 - '0' as u32) as i128;
        }
        i += 1;
    }
    assert(s@.take(i as int) =~= s@);
    Some(x)
}

fn read_exponent(s: &[char]) -> (r: Option<i128>)
    ensures
        match r {
            Some(x) => parse_exponent(s@) is Some && stands_for(x, parse_exponent(s@)->0, EXPONENT_CAP as int)
                && -EXPONENT_CAP * 16 <= x <= EXPONENT_CAP * 16,
            None => parse_exponent(s@) is None,
        },
{
    if s.len() > 0 && s[0] == '-' {
        let t = slice_subrange(s, 1, s.len());
        assert(t@ =~= s@.skip(1));
        match read_whole(t) {
            Some(x) => Some(-x),
            None => None,
        }
    } else {
        read_whole(skip_plus(s))
    }
}

/// The encoding nearest to the number with the given digits, times ten to the
/// power `e`.
fn round_decimal(s: &[char], e: i128) -> (r: u64)
    requires
        all_digits(s@),
    ensures
        r == scaled_bits(number(s@), e as int),
        r <= INFINITY,
{
    let mut m = Natural::zero(0x1_0000_0000);
    let mut some: bool = false;
    let mut i: usize = 0;
    while i < s.len()
        invariant
            i <= s.len(),
            m.wf(),
            m.base() == 0x1_0000_0000,
            m@ == number(s@.take(i as int)),
            some == (m@ > 0),
            all_digits(s@),
        decreases s.len() - i,
    {
        assert(is_digit(s@[i as int]));
        let d: u32 = s[i] as u32 - '0' as u32;
        m.mul_add(10, d);
        if d > 0 {
            some = true;
        }
        assert(s@.take(i + 1).drop_last() =~= s@.take(i as int));
        i += 1;
    }
    assert(s@.take(i as int) =~= s@);
    if e > 400 {
        proof {
            lemma_huge(m@, e as int);
        }
        return if some {
            INFINITY
        } else {
            0
        };
    }
    if e < -(400 + s.len() as i128) {
        proof {
            lemma_tiny(s@, e as int);
        }
        return 0;
    }
    let one = Natural::of(1, 0x1_0000_0000);
    proof {
        lemma_consts();
    }
    if e >= 0 {
        let ghost m0 = m@;
        let mut j: i128 = 0;
        assert(m0 * pow10(0) == m0) by (nonlinear_arith)
            requires
                pow10(0) == 1,
        ;
        while j < e
            invariant
                0 <= j <= e,
                m.wf(),
                m.base() == 0x1_0000_0000,
                m@ == m0 * pow10(j as nat),
            decreases e - j,
        {
            m.mul_add(10, 0);
            proof {
                let p = pow10(j as nat);
                assert((m0 * p) * 10 + 0 == m0 * (10 * p)) by (nonlinear_arith);
            }
            j += 1;
        }
        nearest_bits(m, one, 1074, 0)
    } else {
        let mut d = one;
        let mut j: i128 = 0;
        let f: i128 = -e;
        while j < f
            invariant
                0 <= j <= f,
                d.wf(),
                d.base() == 0x1_0000_0000,
                d@ == pow10(j as nat),
            decreases f - j,
        {
            d.mul_add(10, 0);
            j += 1;
        }
        proof {
            lemma_pow10_positive(j as nat);
            assert(d@ * pow2(0) == d@);
        }
        nearest_bits(m, d, 1074, 0)
    }
}

/// The same, for an exponent that may only stand for the one meant.
fn round_scaled(s: &[char], x: i128, e: Ghost<int>) -> (r: u64)
    requires
        all_digits(s@),
        stands_for(x, e@, EXPONENT_CAP / 2),
    ensures
        r == scaled_bits(number(s@), e@),
        r <= INFINITY,
{
    let r = round_decimal(s, x);
    let n = s.len();
    proof {
        assert(s@.len() == n);
        if x != e@ {
            if x > 0 {
                lemma_huge(number(s@), x as int);
                lemma_huge(number(s@), e@);
            } else {
                lemma_tiny(s@, x as int);
                lemma_tiny(s@, e@);
            }
        }
    }
    r
}

/// Reads a number without its sign, giving its encoding.
#[verifier::rlimit(40)]
fn read_number(s: &[char]) -> (r: Option<u64>)
    ensures
        match r {
            Some(b) => parse_number(s@) is Some && b == literal_bits(parse_number(s@)->0) && b
                <= INFINITY,
            None => parse_number(s@) is None,
        },
{
    let a = count_digits(s);
    let mut all: Vec<char> = Vec::new();
    let mut i: usize = 0;
    while i < a
        invariant
            i <= a <= s.len(),
            all@ == s@.take(i as int),
        decreases a - i,
    {
        all.push(s[i]);
        assert(all@ =~= s@.take(i + 1));
        i += 1;
    }
    let mut rest = slice_subrange(s, a, s.len());
    let mut fraction: usize = 0;
    assert(rest@ =~= s@.skip(a as int));
    assert(forall|k: int| 0 <= k < a ==> is_digit(#[trigger] all@[k]));
    if rest.len() > 0 && rest[0] == '.' {
        let after = slice_subrange(rest, 1, rest.len());
        assert(after@ =~= s@.skip(a + 1));
        let b = count_digits(after);
        let ghost first = all@;
        i = 0;
        assert(first + after@.take(0) =~= first);
        while i < b
            invariant
                i <= b <= after.len(),
                all@ == first + after@.take(i as int),
            decreases b - i,
        {
            all.push(after[i]);
            assert(all@ =~= first + after@.take(i + 1));
            i += 1;
        }
        fraction = b;
        rest = slice_subrange(after, b, after.len());
        assert(rest@ =~= after@.skip(b as int));
        assert(forall|k: int| 0 <= k < b ==> after@.take(b as int)[k] == #[trigger] after@[k]);
    }
    assert(all@ == significant(s@));
    assert(rest@ == tail(s@));
    assert(fraction == fraction_len(s@));
    assert(all_digits(all@));
    if all.len() == 0 {
        return None;
    }
    if rest.len() == 0 {
        let ghost e = -(fraction as int);
        let b = round_scaled(all.as_slice(), -(fraction as i128), Ghost(e));
        return Some(b);
    }
    if rest[0] == 'e' || rest[0] == 'E' {
        let t = slice_subrange(rest, 1, rest.len());
        assert(t@ =~= tail(s@).skip(1));
        match read_exponent(t) {
            Some(x) => {
                let ghost e = parse_exponent(t@)->0 - fraction;
                let b = round_scaled(all.as_slice(), x - fraction as i128, Ghost(e));
                Some(b)
            },
            None => None,
        }
    } else {
        None
    }
}

/// `s` with its ASCII letters in lower case.
fn to_lower(s: &[char]) -> (r: Vec<char>)
    ensures
        r@ == lowered(s@),
{
    let mut r: Vec<char> = Vec::new();
    let mut i: usize = 0;
    while i < s.len()
        invariant
            i <= s.len(),
            r@ == lowered(s@.take(i as int)),
        decreases s.len() - i,
    {
        let c = s[i];
        let d = if 'A' <= c && c <= 'Z' {
            (c as u8 + 32) as char
        } else {
            c
        };
        r.push(d);
        assert(r@ =~= lowered(s@.take(i + 1)));
        i += 1;
    }
    assert(s@.take(i as int) =~= s@);
    r
}

/// Reads a binary64 number.
pub fn read_real(s: &[char]) -> (r: Option<Binary64>)
    ensures
        r == parse_real(s@),
{
    let negative = s.len() > 0 && s[0] == '-';
    let body = if s.len() > 0 && (s[0] == '-' || s[0] == '+') {
        let t = slice_subrange(s, 1, s.len());
        assert(t@ =~= s@.skip(1));
        t
    } else {
        s
    };
    assert(body@ == unsigned(s@));
    let b = match read_number(body) {
        Some(b) => b,
        None => {
            let w = to_lower(body);
            if same(w.as_slice(), "inf") || same(w.as_slice(), "infinity") {
                INFINITY
            } else if same(w.as_slice(), "nan") {
                NOT_A_NUMBER
            } else {
                return None;
            }
        },
    };
    if negative {
        Some(Binary64 { bits: b + SIGN })
    } else {
        Some(Binary64 { bits: b })
    }
}

// --------------------------------------------------------------- writing --

/// A finite magnitude of `u` units in tenths to the power `p`, rounded to the
/// nearest, ties to the even one.
pub open spec fn scaled(u: nat, p: nat) -> nat {
    half_even(u * pow10(p), one_units())
}

/// The text of a number with exactly `p` digits after the point.
pub open spec fn fixed(x: Binary64, p: nat) -> Seq<char> {
    let sign = if x.negative() {
        seq!['-']
    } else {
        seq![]
    };
    let t = scaled(x.units(), p);
    if x.is_nan() {
        "NaN"@
    } else if x.is_infinite() {
        sign + "inf"@
    } else if p == 0 {
        sign + dec(t)
    } else {
        sign + dec(t / pow10(p)) + seq!['.'] + dec_padded(t % pow10(p), p)
    }
}

/// Ten to the power `p`, for a small `p`.
fn ten_to(p: u64) -> (r: u64)
    requires
        p <= 3,
    ensures
        r == pow10(p as nat),
        1 <= r <= 1000,
{
    proof {
        reveal_with_fuel(pow10, 4);
    }
    if p == 0 {
        1
    } else if p == 1 {
        10
    } else if p == 2 {
        100
    } else {
        1000
    }
}

/// `n / d` rounded to the nearest, ties to the even one.
pub fn divide_half_even(n: u128, d: u128) -> (r: u128)
    requires
        0 < d <= 0x4000_0000_0000_0000_0000_0000_0000_0000,
        n < u128::MAX,
    ensures
        r == half_even(n as nat, d as nat),
{
    let q = n / d;
    let r = n % d;
    assert(q <= n) by (nonlinear_arith)
        requires
            q == n / d,
            d > 0,
    ;
    if 2 * r > d || (2 * r == d && q % 2 == 1) {
        q + 1
    } else {
        q
    }
}

fn push_parts(out: &mut String, t: u128, ten: u64, p: u64)
    requires
        p <= 3,
        ten == pow10(p as nat),
        ten >= 1,
    ensures
        final(out)@ == old(out)@ + (if p == 0 {
            dec(t as nat)
        } else {
            dec(t as nat / pow10(p as nat)) + seq!['.'] + dec_padded(t as nat % pow10(p as nat), p as nat)
        }),
{
    let ghost before = out@;
    if p == 0 {
        push_dec(out, t);
    } else {
        push_dec(out, t / ten as u128);
        out.push('.');
        push_dec_padded(out, t % ten as u128, p);
        assert(out@ =~= before + (dec(t as nat / pow10(p as nat)) + seq!['.'] + dec_padded(
            t as nat % pow10(p as nat),
            p as nat,
        )));
    }
}

/// Appends `x` with `p` digits after the point.
#[verifier::rlimit(40)]
pub fn push_fixed(out: &mut String, x: &Binary64, p: u64)
    requires
        p <= 3,
    ensures
        final(out)@ == old(out)@ + fixed(*x, p as nat),
{
    let ghost before = out@;
    if x.nan() {
        out.append("NaN");
        return;
    }
    if x.bits >= SIGN {
        out.push('-');
    }
    let m = x.bits % SIGN;
    if m == INFINITY {
        out.append("inf");
        assert(out@ =~= before + fixed(*x, p as nat));
        return;
    }
    let ten = ten_to(p);
    let (n, k) = decode(m);
    let ghost u = x.units();
    let ghost w = one_units();
    proof {
        lemma_consts();
        lemma_pow2_pos(1074);
    }
    if k < 1074 {
        let s = 1074 - k;
        let ghost z = pow2(s as nat);
        let ghost y = pow2(k as nat);
        assert(n * ten <= 0x20_0000_0000_0000 * 1000) by (nonlinear_arith)
            requires
                n < 0x20_0000_0000_0000,
                ten <= 1000,
        ;
        let a = n as u128 * ten as u128;
        proof {
            lemma_pow2_adds(s as nat, k as nat);
            lemma_pow2_pos(s as nat);
            assert(a * (z * y) == ((n * y) * ten) * z) by (nonlinear_arith)
                requires
                    a == n * ten,
            ;
            lemma_half_even_ratio(a as nat, z, u * ten as nat, w);
        }
        let t = if s > 65 {
            proof {
                lemma_pow2_strictly_increases(65, s as nat);
                lemma_pow2_unfold(65);
                lemma_basic_div(a as int, z as int);
                lemma_small_mod(a as nat, z);
            }
            0
        } else {
            proof {
                lemma_pow2_unfold(65);
                if s < 65 {
                    lemma_pow2_strictly_increases(s as nat, 65);
                }
            }
            divide_half_even(a, two_to(s))
        };
        assert(t == scaled(u, p as nat));
        push_parts(out, t, ten, p);
        assert(out@ =~= before + fixed(*x, p as nat));
    } else {
        let s = k - 1074;
        let mut v = Natural::of(n as u128, 10);
        let mut i: u64 = 0;
        assert(n * pow2(0) == n);
        while i < s
            invariant
                i <= s,
                v.wf(),
                v.base() == 10,
                v@ == n * pow2(i as nat),
            decreases s - i,
        {
            v.mul_add(2, 0);
            proof {
                lemma_pow2_unfold((i + 1) as nat);
                let q = pow2(i as nat);
                assert((n * q) * 2 + 0 == n * (2 * q)) by (nonlinear_arith);
            }
            i += 1;
        }
        v.push_decimal(out);
        proof {
            let vv = v@;
            let z = pow2(s as nat);
            lemma_pow2_adds(s as nat, 1074);
            assert(u * ten == (vv * ten) * w) by (nonlinear_arith)
                requires
                    u == n * (z * w),
                    vv == n * z,
            ;
            lemma_cancel(vv * ten as nat, w, 1);
            assert(scaled(u, p as nat) == vv * ten);
            lemma_cancel(vv, ten as nat, 1);
            assert(ten == 1 ==> vv * ten == vv) by (nonlinear_arith);
        }
        if p > 0 {
            out.push('.');
            push_dec_padded(out, 0, p);
        }
        assert(out@ =~= before + fixed(*x, p as nat));
    }
}

/// Every whole number that is written in decimal is read as the nearest
/// binary64 number.
pub proof fn law_whole_numbers_read_back(n: nat)
    ensures
        parse_real(dec(n)) == Some(of_int(n as int)),
{
    let s = dec(n);
    law_dec_reads_back(n);
    lemma_span(s, digits(), s.len());
    assert(s.take(s.len() as int) =~= s);
    assert(is_digit(s[0]));
    assert(n * 1 * one_units() == n * one_units()) by (nonlinear_arith);
}

/// A decimal fraction is read as the nearest binary64 number to what its digits
/// say, and with a minus sign as its negative.
pub proof fn law_fractions_read_back(a: Seq<char>, b: Seq<char>)
    requires
        a.len() > 0 || b.len() > 0,
        all_digits(a),
        all_digits(b),
    ensures
        parse_real(a + seq!['.'] + b) == Some(
            encode(false, nearest(number(a + b) * one_units(), pow10(b.len()))),
        ),
        parse_real(seq!['-'] + a + seq!['.'] + b) == Some(
            encode(true, nearest(number(a + b) * one_units(), pow10(b.len()))),
        ),
        parse_real(seq!['+'] + a + seq!['.'] + b) == parse_real(a + seq!['.'] + b),
{
    let s = a + seq!['.'] + b;
    let n = a.len();
    assert forall|i: int| 0 <= i < n implies digits()(#[trigger] s[i]) by {
        assert(s[i] == a[i]);
    }
    assert(s[n as int] == '.');
    lemma_span(s, digits(), n);
    let rest = s.skip(n as int + 1);
    assert(rest =~= b);
    lemma_span(b, digits(), b.len());
    assert(s.take(n as int) =~= a);
    assert(b.take(b.len() as int) =~= b);
    assert(b.skip(b.len() as int) =~= Seq::<char>::empty());
    assert(significant(s) =~= a + b);
    assert(tail(s).len() == 0);
    if a.len() > 0 {
        assert(s[0] == a[0] && is_digit(a[0]));
    }
    assert(unsigned(s) == s);
    if b.len() == 0 {
        assert(number(a + b) * 1 * one_units() == number(a + b) * one_units()) by (nonlinear_arith);
    }
    let m = seq!['-'] + a + seq!['.'] + b;
    assert(unsigned(m) =~= s);
    let p = seq!['+'] + a + seq!['.'] + b;
    assert(unsigned(p) =~= s);
}

/// An exponent scales by that power of ten, whichever way its letter is written.
pub proof fn law_exponents_scale_by_tens(a: Seq<char>, x: nat)
    requires
        a.len() > 0,
        all_digits(a),
    ensures
        parse_real(a + seq!['e'] + dec(x)) == Some(
            encode(false, nearest(number(a) * pow10(x) * one_units(), 1)),
        ),
        parse_real(a + seq!['E'] + dec(x)) == parse_real(a + seq!['e'] + dec(x)),
        x > 0 ==> parse_real(a + seq!['e', '-'] + dec(x)) == Some(
            encode(false, nearest(number(a) * one_units(), pow10(x))),
        ),
{
    law_dec_reads_back(x);
    lemma_exponent(a, 'e', x);
    lemma_exponent(a, 'E', x);
    let s = a + seq!['e', '-'] + dec(x);
    let n = a.len();
    assert forall|i: int| 0 <= i < n implies digits()(#[trigger] s[i]) by {
        assert(s[i] == a[i]);
    }
    assert(s[n as int] == 'e');
    lemma_span(s, digits(), n);
    assert(s.take(n as int) =~= a);
    assert(s[0] == a[0] && is_digit(a[0]));
    let t = s.skip(n as int);
    assert(t[0] == 'e');
    assert(t.skip(1)[0] == '-');
    assert(t.skip(1).skip(1) =~= dec(x));
}

proof fn lemma_exponent(a: Seq<char>, e: char, x: nat)
    requires
        a.len() > 0,
        all_digits(a),
        e == 'e' || e == 'E',
    ensures
        parse_real(a + seq![e] + dec(x)) == Some(
            encode(false, nearest(number(a) * pow10(x) * one_units(), 1)),
        ),
{
    law_dec_reads_back(x);
    let s = a + seq![e] + dec(x);
    let n = a.len();
    assert forall|i: int| 0 <= i < n implies digits()(#[trigger] s[i]) by {
        assert(s[i] == a[i]);
    }
    assert(s[n as int] == e);
    lemma_span(s, digits(), n);
    assert(s.take(n as int) =~= a);
    assert(s[0] == a[0] && is_digit(a[0]));
    assert(unsigned(s) == s);
    let t = s.skip(n as int);
    assert(t[0] == e);
    assert(t.skip(1) =~= dec(x));
    assert(is_digit(dec(x)[0]));
}

} // verus!
