//! Decimal integers: reading them from text and writing them.

use vstd::prelude::*;
use vstd::slice::slice_subrange;

use crate::text::{ascii_digit, digit, is_digit};

verus! {

// --------------------------------------------------------------- reading --

/// Whether `s` consists of decimal digits alone.
pub open spec fn all_digits(s: Seq<char>) -> bool {
    forall|k: int| 0 <= k < s.len() ==> is_digit(#[trigger] s[k])
}

/// The number that the digits `s` write in base ten.
pub open spec fn number(s: Seq<char>) -> nat
    decreases s.len(),
{
    if s.len() == 0 {
        0
    } else {
        10 * number(s.drop_last()) + digit(s.last())
    }
}

/// A non-empty run of digits whose number is at most `max`.
pub open spec fn parse_digits(s: Seq<char>, max: nat) -> Option<nat> {
    if s.len() > 0 && all_digits(s) && number(s) <= max {
        Some(number(s))
    } else {
        None
    }
}

/// `s` without a leading plus sign.
pub open spec fn unplussed(s: Seq<char>) -> Seq<char> {
    if s.len() > 0 && s[0] == '+' {
        s.skip(1)
    } else {
        s
    }
}

/// An unsigned integer of at most `max`: digits after an optional plus sign.
pub open spec fn parse_unsigned(s: Seq<char>, max: nat) -> Option<nat> {
    parse_digits(unplussed(s), max)
}

/// A signed integer between `-low` and `high`: digits after an optional sign.
pub open spec fn parse_signed(s: Seq<char>, low: nat, high: nat) -> Option<int> {
    if s.len() > 0 && s[0] == '-' {
        match parse_digits(s.skip(1), low) {
            Some(n) => Some(-(n as int)),
            None => None,
        }
    } else {
        match parse_digits(unplussed(s), high) {
            Some(n) => Some(n as int),
            None => None,
        }
    }
}

/// A `u64` written in decimal.
pub open spec fn parse_u64(s: Seq<char>) -> Option<u64> {
    match parse_unsigned(s, u64::MAX as nat) {
        Some(n) => Some(n as u64),
        None => None,
    }
}

/// A `u64` written in decimal, or zero where `s` is none.
pub open spec fn u64_or_zero(s: Seq<char>) -> u64 {
    match parse_u64(s) {
        Some(n) => n,
        None => 0,
    }
}

/// An `i32` written in decimal.
pub open spec fn parse_i32(s: Seq<char>) -> Option<i32> {
    match parse_signed(s, 0x8000_0000, 0x7fff_ffff) {
        Some(n) => Some(n as i32),
        None => None,
    }
}

/// An `i64` written in decimal.
pub open spec fn parse_i64(s: Seq<char>) -> Option<i64> {
    match parse_signed(s, 0x8000_0000_0000_0000, 0x7fff_ffff_ffff_ffff) {
        Some(n) => Some(n as i64),
        None => None,
    }
}

/// A `usize` written in decimal.
pub open spec fn parse_usize(s: Seq<char>) -> Option<usize> {
    match parse_unsigned(s, usize::MAX as nat) {
        Some(n) => Some(n as usize),
        None => None,
    }
}

/// A longer run of digits writes no smaller a number.
pub proof fn lemma_number_grows(s: Seq<char>, n: int)
    requires
        0 <= n <= s.len(),
    ensures
        number(s.take(n)) <= number(s),
    decreases s.len() - n,
{
    if n == s.len() {
        assert(s.take(n) =~= s);
    } else {
        lemma_number_grows(s, n + 1);
        assert(s.take(n + 1).drop_last() =~= s.take(n));
    }
}

fn read_digits(s: &[char], max: u64) -> (r: Option<u64>)
    ensures
        match r {
            Some(n) => parse_digits(s@, max as nat) == Some(n as nat),
            None => parse_digits(s@, max as nat) is None,
        },
{
    if s.len() == 0 {
        return None;
    }
    let mut n: u64 = 0;
    let mut i: usize = 0;
    while i < s.len()
        invariant
            i <= s.len(),
            n <= max,
            n == number(s@.take(i as int)),
            forall|k: int| 0 <= k < i ==> is_digit(#[trigger] s@[k]),
        decreases s.len() - i,
    {
        let c = s[i];
        if !ascii_digit(c) {
            return None;
        }
        let next: u128 = n as u128 * 10 + (c as u32 - '0' as u32) as u128;
        proof {
            assert(s@.take(i + 1).drop_last() =~= s@.take(i as int));
            lemma_number_grows(s@, i + 1);
        }
        if next > max as u128 {
            return None;
        }
        n = next as u64;
        i += 1;
    }
    assert(s@.take(i as int) =~= s@);
    Some(n)
}

pub(crate) fn skip_plus<'a>(s: &'a [char]) -> (r: &'a [char])
    ensures
        r@ == unplussed(s@),
{
    if s.len() > 0 && s[0] == '+' {
        let t = slice_subrange(s, 1, s.len());
        assert(t@ =~= s@.skip(1));
        t
    } else {
        s
    }
}

/// Reads a `u64`.
pub fn read_u64(s: &[char]) -> (r: Option<u64>)
    ensures
        r == parse_u64(s@),
{
    read_digits(skip_plus(s), u64::MAX)
}

/// Reads a `u64`, taking zero where there is none.
pub fn read_u64_or_zero(s: &[char]) -> (r: u64)
    ensures
        r == u64_or_zero(s@),
{
    match read_u64(s) {
        Some(n) => n,
        None => 0,
    }
}

/// Reads a `usize`.
pub fn read_usize(s: &[char]) -> (r: Option<usize>)
    ensures
        r == parse_usize(s@),
{
    match read_digits(skip_plus(s), usize::MAX as u64) {
        Some(n) => Some(n as usize),
        None => None,
    }
}

/// Reads an `i32`.
pub fn read_i32(s: &[char]) -> (r: Option<i32>)
    ensures
        r == parse_i32(s@),
{
    if s.len() > 0 && s[0] == '-' {
        let t = slice_subrange(s, 1, s.len());
        assert(t@ =~= s@.skip(1));
        match read_digits(t, 0x8000_0000) {
            Some(n) => Some((-(n as i64)) as i32),
            None => None,
        }
    } else {
        match read_digits(skip_plus(s), 0x7fff_ffff) {
            Some(n) => Some(n as i32),
            None => None,
        }
    }
}

/// Reads an `i64`.
pub fn read_i64(s: &[char]) -> (r: Option<i64>)
    ensures
        r == parse_i64(s@),
{
    if s.len() > 0 && s[0] == '-' {
        let t = slice_subrange(s, 1, s.len());
        assert(t@ =~= s@.skip(1));
        match read_digits(t, 0x8000_0000_0000_0000) {
            Some(n) => Some((-(n as i128)) as i64),
            None => None,
        }
    } else {
        match read_digits(skip_plus(s), 0x7fff_ffff_ffff_ffff) {
            Some(n) => Some(n as i64),
            None => None,
        }
    }
}

// --------------------------------------------------------------- writing --

/// The digit that writes `d`.
pub open spec fn digit_char(d: nat) -> char {
    (48 + d) as u8 as char
}

/// `n` written in base ten, without leading zeros.
pub open spec fn dec(n: nat) -> Seq<char>
    decreases n,
{
    if n < 10 {
        seq![digit_char(n)]
    } else {
        dec(n / 10).push(digit_char(n % 10))
    }
}

/// Ten to the power `n`.
pub open spec fn pow10(n: nat) -> nat
    decreases n,
{
    if n == 0 {
        1
    } else {
        10 * pow10((n - 1) as nat)
    }
}

/// The lowest `w` digits of `n`, leading zeros kept.
pub open spec fn dec_padded(n: nat, w: nat) -> Seq<char>
    decreases w,
{
    if w == 0 {
        seq![]
    } else {
        dec_padded(n / 10, (w - 1) as nat).push(digit_char(n % 10))
    }
}

/// `n` written in base ten, with a minus sign where it is negative.
pub open spec fn dec_int(n: int) -> Seq<char> {
    if n < 0 {
        seq!['-'] + dec((-n) as nat)
    } else {
        dec(n as nat)
    }
}

/// Appends `n` in base ten.
pub fn push_dec(out: &mut String, n: u128)
    ensures
        final(out)@ == old(out)@ + dec(n as nat),
    decreases n,
{
    let ghost before = out@;
    if n >= 10 {
        push_dec(out, n / 10);
    }
    let d: u8 = (n % 10) as u8;
    out.push((48 + d) as char);
    assert(out@ =~= before + dec(n as nat));
}

/// Appends the lowest `w` digits of `n`.
pub fn push_dec_padded(out: &mut String, n: u128, w: u64)
    ensures
        final(out)@ == old(out)@ + dec_padded(n as nat, w as nat),
    decreases w,
{
    let ghost before = out@;
    if w > 0 {
        push_dec_padded(out, n / 10, w - 1);
        let d: u8 = (n % 10) as u8;
        out.push((48 + d) as char);
    }
    assert(out@ =~= before + dec_padded(n as nat, w as nat));
}

/// Appends `n` in base ten, with its sign where it is negative.
pub fn push_dec_int(out: &mut String, n: i64)
    ensures
        final(out)@ == old(out)@ + dec_int(n as int),
{
    let ghost before = out@;
    if n < 0 {
        out.push('-');
        push_dec(out, (-(n as i128)) as u128);
        assert(out@ =~= before + dec_int(n as int));
    } else {
        push_dec(out, n as u128);
    }
}

/// Writing a number gives digits, and reading them gives the number back.
pub proof fn law_dec_reads_back(n: nat)
    ensures
        dec(n).len() > 0,
        all_digits(dec(n)),
        number(dec(n)) == n,
    decreases n,
{
    reveal_with_fuel(number, 2);
    if n >= 10 {
        law_dec_reads_back(n / 10);
        assert(dec(n).drop_last() =~= dec(n / 10));
    }
}

/// Every `u64` that is written in decimal is read back unchanged.
pub proof fn law_u64_reads_back(n: u64)
    ensures
        parse_u64(dec(n as nat)) == Some(n),
{
    law_dec_reads_back(n as nat);
    assert(is_digit(dec(n as nat)[0]));
}

/// Every `i32` that is written in decimal is read back unchanged.
pub proof fn law_i32_reads_back(n: i32)
    ensures
        parse_i32(dec_int(n as int)) == Some(n),
{
    if n < 0 {
        law_dec_reads_back((-n) as nat);
        assert(dec_int(n as int).skip(1) =~= dec((-n) as nat));
    } else {
        law_dec_reads_back(n as nat);
        assert(is_digit(dec(n as nat)[0]));
    }
}

/// Every `i64` that is written in decimal is read back unchanged.
pub proof fn law_i64_reads_back(n: i64)
    ensures
        parse_i64(dec_int(n as int)) == Some(n),
{
    if n < 0 {
        law_dec_reads_back((-n) as nat);
        assert(dec_int(n as int).skip(1) =~= dec((-n) as nat));
    } else {
        law_dec_reads_back(n as nat);
        assert(is_digit(dec(n as nat)[0]));
    }
}

} // verus!
