//! What the figures on the screen promise: numbers, sizes, rates and blocks.

use vstd::arithmetic::div_mod::{
    lemma_div_by_multiple, lemma_fundamental_div_mod, lemma_fundamental_div_mod_converse, lemma_mod_bound,
    lemma_mod_multiples_basic,
};
use vstd::arithmetic::power2::{lemma2_to64, lemma_pow2_adds, lemma_pow2_pos, pow2};
use vstd::prelude::*;

use crate::binary64::{
    half_even, law_equal_ratios_have_equal_quotients, law_nearest_keeps_order, law_quotients_keep_order, law_representable_is_exact,
    law_small_products_are_exact, law_small_whole_numbers_are_exact, law_whole_numbers_are_finite,
    law_whole_numbers_keep_their_order, law_whole_quotients_are_exact, lemma_exact_product, lemma_one, lemma_quarter, lemma_quotient_by_itself,
    lemma_quotient_is_a_number, lemma_units_order, lemma_whole_number_is_at_least_one, lemma_zero_over, of_int, one_units, units_of,
    Binary64, HIDDEN,
};
use crate::decimal::{fixed, scaled};
use crate::numbers::{dec, dec_padded, pow10};
use crate::render::{block, height};
use crate::units::{bytes_text, rate_text, shrunk, suffix};

verus! {

/// Whether `t` units of the last of `p` digits are as near to the magnitude of
/// `x` as any number of them is, and even where two are as near.
pub open spec fn is_nearest(t: nat, x: Binary64, p: nat) -> bool {
    &&& 2 * (t * one_units()) <= 2 * (x.units() * pow10(p)) + one_units()
    &&& 2 * (x.units() * pow10(p)) <= 2 * (t * one_units()) + one_units()
    &&& 2 * (t * one_units()) == 2 * (x.units() * pow10(p)) + one_units() || 2 * (x.units() * pow10(p)) == 2 * (t
        * one_units()) + one_units() ==> t % 2 == 0
}

/// A number is written with `p` digits after the point, and as the nearest such
/// number: what is written is off by at most half of the last digit. The sign of
/// a negative number stands in front; what is not a number, or infinite, is
/// written in letters.
pub proof fn law_numbers_are_written_to_the_nearest_digit(x: Binary64, p: nat)
    ensures
        x.is_finite() ==> exists|t: nat| #[trigger]
            is_nearest(t, x, p) && fixed(x, p) == (if x.negative() {
                seq!['-']
            } else {
                seq![]
            }) + dec(t / pow10(p)) + if p == 0 {
                seq![]
            } else {
                seq!['.'] + dec_padded(t % pow10(p), p)
            },
        x.is_nan() ==> fixed(x, p) == "NaN"@,
        x.is_infinite() && !x.negative() ==> fixed(x, p) == "inf"@,
        x.is_infinite() && x.negative() ==> fixed(x, p) == seq!['-'] + "inf"@,
{
    let w = one_units();
    lemma_pow2_pos(1074);
    let n = x.units() * pow10(p);
    let t = half_even(n, w);
    lemma_fundamental_div_mod(n as int, w as int);
    lemma_mod_bound(n as int, w as int);
    let q = n / w;
    let r = n % w;
    assert((q + 1) * w == q * w + w) by (nonlinear_arith);
    assert(w * q == q * w) by (nonlinear_arith);
    if x.is_finite() {
        assert(t == scaled(x.units(), p));
        if p == 0 {
            assert(pow10(0) == 1);
            assert(t / 1 == t);
        }
        let sign = if x.negative() {
            seq!['-']
        } else {
            Seq::<char>::empty()
        };
        assert(fixed(x, p) =~= sign + dec(t / pow10(p)) + if p == 0 {
            seq![]
        } else {
            seq!['.'] + dec_padded(t % pow10(p), p)
        });
        assert(is_nearest(t, x, p));
    }
    assert(Seq::<char>::empty() + "inf"@ =~= "inf"@);
}

/// Whole numbers are written as they are, with as many zeros after the point as
/// are asked for.
pub proof fn law_whole_numbers_are_written_out(n: nat)
    requires
        n < 0x20_0000_0000_0000,
    ensures
        fixed(of_int(n as int), 0) == dec(n),
        fixed(of_int(n as int), 1) == dec(n) + seq!['.', '0'],
        fixed(of_int(n as int), 3) == dec(n) + seq!['.', '0', '0', '0'],
{
    lemma_whole_fixed(n, 0);
    lemma_whole_fixed(n, 1);
    lemma_whole_fixed(n, 3);
    reveal_with_fuel(pow10, 4);
    reveal_with_fuel(dec_padded, 4);
    let x = of_int(n as int);
    assert(n * 1 / 1 == n);
    assert(n * 10 / 10 == n && (n * 10) % 10 == 0);
    assert(n * 1000 / 1000 == n && (n * 1000) % 1000 == 0);
    assert(fixed(x, 0) =~= dec(n));
    assert(fixed(x, 1) =~= dec(n) + seq!['.', '0']);
    assert(fixed(x, 3) =~= dec(n) + seq!['.', '0', '0', '0']);
}

proof fn lemma_whole_fixed(n: nat, p: nat)
    requires
        n < 0x20_0000_0000_0000,
    ensures
        scaled(of_int(n as int).units(), p) == n * pow10(p),
        of_int(n as int).is_finite(),
        !of_int(n as int).negative(),
{
    let w = one_units();
    lemma_pow2_pos(1074);
    law_small_whole_numbers_are_exact(n);
    let m = n * pow10(p);
    assert((n * w) * pow10(p) == m * w) by (nonlinear_arith)
        requires
            m == n * pow10(p),
    ;
    lemma_div_by_multiple(m as int, w as int);
    lemma_mod_multiples_basic(m as int, w as int);
}

/// Sizes are written in the largest unit in which they are at least one, with a
/// digit after the point below a hundred.
pub proof fn law_sizes_are_written_in_their_unit(m: nat, i: nat, unit: nat, letter: char)
    requires
        m < 1024,
        ({
            ||| i == 1 && unit == 1024 && letter == 'K'
            ||| i == 2 && unit == 1024 * 1024 && letter == 'M'
            ||| i == 3 && unit == 1024 * 1024 * 1024 && letter == 'G'
            ||| i == 4 && unit == 1024 * 1024 * 1024 * 1024 && letter == 'T'
        }),
    ensures
        bytes_text(m) == dec(m) + seq!['B'],
        0 < m < 100 ==> bytes_text(m * unit) == dec(m) + seq!['.', '0', letter],
        100 <= m ==> bytes_text(m * unit) == dec(m) + seq![letter],
{
    if m > 0 {
        lemma_shrunk(m, i, 0);
        assert(pow1024(i) == unit) by {
            reveal_with_fuel(pow1024, 5);
        }
        let x = of_int(m as int);
        law_whole_numbers_are_written_out(m);
        law_whole_numbers_keep_their_order(100, m as int);
        assert(m * unit >= 1024) by (nonlinear_arith)
            requires
                m >= 1,
                unit >= 1024,
        ;
        assert(dec(m) + seq!['.', '0'] + seq![letter] =~= dec(m) + seq!['.', '0', letter]);
    }
}

spec fn pow1024(i: nat) -> nat
    decreases i,
{
    if i == 0 {
        1
    } else {
        1024 * pow1024((i - 1) as nat)
    }
}

proof fn lemma_shrunk(m: nat, i: nat, from: nat)
    requires
        0 < m < 1024,
        from + i <= 4,
    ensures
        shrunk(of_int((m * pow1024(i)) as int), from) == (of_int(m as int), from + i),
    decreases i,
{
    reveal_with_fuel(pow1024, 5);
    let n = m * pow1024(i);
    let p = pow1024(i);
    assert(p <= 0x100_0000_0000);
    assert(n <= m * 0x100_0000_0000) by (nonlinear_arith)
        requires
            n == m * p,
            p <= 0x100_0000_0000,
    ;
    law_whole_numbers_keep_their_order(1024, n as int);
    if i == 0 {
        assert(m * 1 == m);
    } else {
        let less = m * pow1024((i - 1) as nat);
        assert(n == less * 1024 && n >= 1024) by (nonlinear_arith)
            requires
                n == m * p,
                p == 1024 * pow1024((i - 1) as nat),
                less == m * pow1024((i - 1) as nat),
                pow1024((i - 1) as nat) >= 1,
                m >= 1,
        ;
        law_whole_quotients_are_exact(less, 1024);
        lemma_shrunk(m, (i - 1) as nat, from + 1);
    }
}

/// A rate is its whole bytes a second; less than one is a dash.
pub proof fn law_rates_are_sizes_a_second(n: nat, v: Binary64)
    requires
        n < 0x20_0000_0000_0000,
    ensures
        n > 0 ==> rate_text(of_int(n as int)) == bytes_text(n) + "/s"@,
        v.lt(of_int(1)) ==> rate_text(v) == seq!['-'],
        rate_text(of_int(0)) == seq!['-'],
{
    law_small_products_are_exact(n, 1);
    law_whole_numbers_keep_their_order(n as int, 1);
    law_whole_numbers_keep_their_order(0, 1);
    assert(n * 1 == n);
}

/// The blocks are the eight block elements in order of height.
pub proof fn law_blocks_grow_by_an_eighth(i: nat)
    requires
        i <= 7,
    ensures
        block(i) as nat == 0x2581 + i,
{
}

/// A block stands as high as its value: at `k` quarters of the most it is `k`
/// quarters of the way up, to the nearest of the seven steps.
pub proof fn law_blocks_are_as_high_as_their_values(a: nat, b: nat, k: nat, n: nat)
    requires
        a < 0x20_0000_0000_0000,
        0 < b < 0x20_0000_0000_0000,
        4 * a == k * b,
        k <= 3,
        4 * n <= 7 * k + 2 < 4 * n + 4,
    ensures
        height(of_int(a as int), of_int(b as int)) == n,
{
    law_whole_numbers_keep_their_order(b as int, 0);
    assert(a * 4 == k * b);
    law_equal_ratios_have_equal_quotients(a, b, k, 4);
    if k == 0 {
        lemma_no_quarter();
        lemma_rounds(of_int(0), 0, 0);
    } else {
        lemma_seven_times(k);
        let z = of_int((7 * k) as int).quotient(of_int(4));
        lemma_quarter(7 * k);
        lemma_rounds(z, 7 * k, n);
    }
}

proof fn lemma_no_quarter()
    ensures
        of_int(0).quotient(of_int(4)).held_between(of_int(0), of_int(1)).product(of_int(7)) == of_int(0),
        of_int(0).is_finite(),
        !of_int(0).negative(),
        of_int(0).units() * 4 == 0 * one_units(),
{
    law_whole_numbers_are_finite(4);
    lemma_zero_over(of_int(4));
    law_small_products_are_exact(0, 7);
    law_whole_numbers_keep_their_order(0, 0);
    law_whole_numbers_keep_their_order(1, 0);
    law_small_whole_numbers_are_exact(0);
    assert(0 * one_units() == 0);
}

#[verifier::rlimit(60)]
proof fn lemma_seven_times(k: nat)
    requires
        0 < k <= 3,
    ensures
        of_int(k as int).quotient(of_int(4)).held_between(of_int(0), of_int(1)).product(of_int(7)) == of_int(
            (7 * k) as int,
        ).quotient(of_int(4)),
{
    let w = one_units();
    lemma_pow2_pos(1074);
    law_small_whole_numbers_are_exact(0);
    law_small_whole_numbers_are_exact(1);
    law_small_whole_numbers_are_exact(7);
    lemma_quarter(k);
    lemma_quarter(7 * k);
    let q = of_int(k as int).quotient(of_int(4));
    let z = of_int((7 * k) as int).quotient(of_int(4));
    assert(of_int(1).units() == w) by {
        assert(1 * w == w);
    }
    assert(of_int(0).units() == 0) by {
        assert(0 * w == 0);
    }
    let qu = q.units();
    let zu = z.units();
    assert(qu <= w) by (nonlinear_arith)
        requires
            qu * 4 == k * w,
            k <= 3,
    ;
    assert(q.held_between(of_int(0), of_int(1)) == q);
    assert(4 * (qu * (7 * w)) == (k * w) * (7 * w)) by (nonlinear_arith)
        requires
            qu * 4 == k * w,
    ;
    assert((k * w) * (7 * w) == ((7 * k) * w) * w) by (nonlinear_arith);
    assert(4 * (zu * w) == ((7 * k) * w) * w) by (nonlinear_arith)
        requires
            zu * 4 == (7 * k) * w,
    ;
    assert(qu * (7 * w) == zu * w);
    lemma_exact_product(q, of_int(7), z);
}

/// A value that is the most there is, or beyond it, has a full block.
pub proof fn law_the_most_has_a_full_block(a: nat, b: nat)
    requires
        a < 0x20_0000_0000_0000,
        0 < b < 0x20_0000_0000_0000,
        a >= b,
    ensures
        height(of_int(a as int), of_int(b as int)) == 7,
{
    law_whole_numbers_keep_their_order(b as int, 0);
    lemma_at_least_one(a, b);
    assert(of_int(1).product(of_int(7)) == of_int(7)) by {
        law_small_products_are_exact(1, 7);
        assert(1 * 7 == 7);
    }
    law_small_whole_numbers_are_exact(7);
    assert(of_int(7).units() * 4 == 28 * one_units()) by (nonlinear_arith)
        requires
            of_int(7).units() == 7 * one_units(),
    ;
    lemma_rounds(of_int(7), 28, 7);
}

/// A quotient of at least one is one, where one is the most.
proof fn lemma_at_least_one(a: nat, b: nat)
    requires
        a < 0x20_0000_0000_0000,
        0 < b < 0x20_0000_0000_0000,
        a >= b,
    ensures
        of_int(a as int).quotient(of_int(b as int)).held_between(of_int(0), of_int(1)) == of_int(1),
{
    let y = of_int(b as int);
    let q = of_int(a as int).quotient(y);
    law_quotients_keep_order(b, a, b);
    law_whole_numbers_are_finite(b);
    law_whole_numbers_are_finite(a);
    lemma_quotient_by_itself(y);
    lemma_quotient_is_a_number(of_int(a as int), y);
    law_whole_numbers_keep_their_order(0, 1);
    law_whole_numbers_are_finite(1);
    assert(of_int(1).le(q));
    if !of_int(1).lt(q) {
        assert(q.value() == of_int(1).value());
        lemma_units_order(q.magnitude(), of_int(1).magnitude());
        assert(q.bits == of_int(1).bits);
    }
}

/// A number of quarters rounds to the nearest whole number, a half up.
proof fn lemma_rounds(x: Binary64, quarters: nat, n: nat)
    requires
        x.is_finite(),
        !x.negative(),
        x.units() * 4 == quarters * one_units(),
        4 * n <= quarters + 2 < 4 * n + 4,
        n < 100,
    ensures
        x.rounded(u64::MAX as nat) == n,
{
    let w = one_units();
    lemma_pow2_pos(1074);
    let u = x.units();
    let d = (2 * w) as nat;
    let top = (2 * u + w) as nat;
    let r = top - n * d;
    assert(0 <= r < d && top == n * d + r) by (nonlinear_arith)
        requires
            r == top - n * d,
            d == 2 * w,
            top == 2 * u + w,
            u * 4 == quarters * w,
            4 * n <= quarters + 2 < 4 * n + 4,
            w > 0,
    ;
    assert(d * n == n * d) by (nonlinear_arith);
    lemma_fundamental_div_mod_converse(top as int, d as int, n as int, r);
}

/// A rate of at least one is its whole bytes a second.
pub proof fn law_rates_are_cut_to_whole_bytes(v: Binary64)
    requires
        !v.lt(of_int(1)),
    ensures
        rate_text(v) == bytes_text(v.truncated(u64::MAX as nat)) + "/s"@,
{
}

/// Where the most is nothing, one takes its place.
pub proof fn law_without_a_most_it_is_one(v: Binary64, max: Binary64)
    requires
        max.le(of_int(0)),
    ensures
        height(v, max) == height(v, of_int(1)),
{
    law_whole_numbers_keep_their_order(1, 0);
}

/// The height of a block is its value over the most, held between nothing and
/// all, in sevenths and rounded.
pub proof fn law_the_height_of_a_block(v: Binary64, max: Binary64)
    requires
        !max.le(of_int(0)),
    ensures
        ({
            let x = v.quotient(max);
            let part = if x.lt(of_int(0)) {
                of_int(0)
            } else if of_int(1).lt(x) {
                of_int(1)
            } else {
                x
            };
            height(v, max) == part.product(of_int(7)).rounded(u64::MAX as nat)
        }),
{
}

/// To divide by 1024 is exact.
proof fn lemma_over_1024(x: Binary64)
    requires
        x.is_finite(),
        !x.negative(),
        x.magnitude() >= 100 * HIDDEN,
    ensures
        x.quotient(of_int(1024)).units() * 1024 == x.units(),
        x.quotient(of_int(1024)).is_finite(),
        !x.quotient(of_int(1024)).negative(),
        x.quotient(of_int(1024)).magnitude() == x.magnitude() - 10 * HIDDEN,
{
    let w = one_units();
    let h = HIDDEN as nat;
    lemma_pow2_pos(1074);
    law_small_whole_numbers_are_exact(1024);
    law_whole_numbers_are_finite(1024);
    let m = x.magnitude();
    let b = (m - 10 * h) as nat;
    let e = m / h;
    let f = m % h;
    lemma_fundamental_div_mod(m as int, h as int);
    assert(e >= 100) by (nonlinear_arith)
        requires
            m == h * e + f,
            f < h,
            m >= 100 * h,
    ;
    assert(b == (e - 10) * h + f) by (nonlinear_arith)
        requires
            b == m - 10 * h,
            m == h * e + f,
    ;
    lemma_fundamental_div_mod_converse(b as int, h as int, e - 10, f as int);
    lemma_pow2_adds(10, (e - 11) as nat);
    lemma2_to64();
    let p = pow2((e - 11) as nat);
    assert((HIDDEN + f) as nat * (1024 * p) == 1024 * ((HIDDEN + f) as nat * p)) by (nonlinear_arith);
    assert(units_of(b) * 1024 == units_of(m));
    let y = 1024 * w;
    assert(units_of(m) * w == units_of(b) * y) by (nonlinear_arith)
        requires
            units_of(b) * 1024 == units_of(m),
            y == 1024 * w,
    ;
    assert(y > 0);
    law_representable_is_exact(b, y);
}

/// The letters of the units of size, from kilobytes on.
pub open spec fn is_letter(i: nat, c: char) -> bool {
    ||| i == 1 && c == 'K'
    ||| i == 2 && c == 'M'
    ||| i == 3 && c == 'G'
    ||| i == 4 && c == 'T'
    ||| i == 5 && c == 'P'
}

/// How many bytes a unit of size has: 1024 of the one before it.
pub open spec fn unit_bytes(i: nat) -> nat
    decreases i,
{
    if i == 0 {
        1
    } else {
        1024 * unit_bytes((i - 1) as nat)
    }
}

/// Whether `x` is the number of bytes `n`, as near as can be, in unit `i`, and
/// that is the unit in which it is at least one and less than 1024; beyond the
/// largest unit it may be more.
pub open spec fn in_unit(n: nat, x: Binary64, i: nat) -> bool {
    &&& 1 <= i <= 5
    &&& x.units() * unit_bytes(i) == of_int(n as int).units()
    &&& x.units() >= one_units()
    &&& i < 5 ==> x.units() < 1024 * one_units()
}

proof fn lemma_in_unit(n: nat, v: Binary64, i: nat)
    requires
        n <= u64::MAX,
        v.is_finite(),
        !v.negative(),
        i <= 5,
        v.units() * unit_bytes(i) == of_int(n as int).units(),
        v.units() >= one_units(),
        v.magnitude() >= (200 - 10 * i) * HIDDEN,
        i > 0 || of_int(1024).le(v),
    ensures
        in_unit(n, shrunk(v, i).0, shrunk(v, i).1),
        shrunk(v, i).0.is_finite(),
    decreases 5 - i,
{
    let w = one_units();
    law_small_whole_numbers_are_exact(1024);
    if of_int(1024).le(v) && i < 5 {
        lemma_over_1024(v);
        let q = v.quotient(of_int(1024));
        assert(q.units() * unit_bytes(i + 1) == of_int(n as int).units()) by (nonlinear_arith)
            requires
                q.units() * 1024 == v.units(),
                v.units() * unit_bytes(i) == of_int(n as int).units(),
                unit_bytes(i + 1) == 1024 * unit_bytes(i),
        ;
        lemma_in_unit(n, q, i + 1);
    }
}

/// Every size of a kilobyte or more is written in its unit, with a digit after the
/// point below a hundred; a smaller one in whole bytes.
pub proof fn law_every_size_has_its_unit(n: nat)
    requires
        n <= u64::MAX,
    ensures
        n < 1024 ==> bytes_text(n) == dec(n) + seq!['B'],
        n >= 1024 ==> exists|x: Binary64, i: nat, c: char|
            #[trigger] in_unit(n, x, i) && #[trigger] is_letter(i, c) && bytes_text(n) == fixed(
                x,
                if of_int(100).le(x) {
                    0
                } else {
                    1
                },
            ) + seq![c],
{
    if n >= 1024 {
        let v = of_int(n as int);
        let w = one_units();
        law_whole_numbers_are_finite(n);
        law_whole_numbers_are_finite(1024);
        lemma_whole_number_is_at_least_one(n);
        lemma_one();
        lemma_units_order(1023 * HIDDEN as nat, v.magnitude());
        assert((1024 * w) * 1 <= (n * w) * 1) by (nonlinear_arith)
            requires
                n >= 1024,
        ;
        law_nearest_keeps_order(1024 * w, 1, n * w, 1);
        lemma_units_order(of_int(1024).magnitude(), v.magnitude());
        assert(of_int(1024).le(v));
        assert(v.units() * 1 == v.units());
        lemma_in_unit(n, v, 0);
        let (x, i) = shrunk(v, 0);
        let c = suffix(i);
        assert(is_letter(i, c));
        let p: nat = if of_int(100).le(x) {
            0
        } else {
            1
        };
        assert(bytes_text(n) == fixed(x, p) + seq![c]);
    }
}

} // verus!
