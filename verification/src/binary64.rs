//! IEEE 754 binary64 numbers, computed exactly and rounded once.
//!
//! Every finite binary64 number is a whole multiple of 2^-1074, so its
//! magnitude is modelled as the natural number of such units it holds. An
//! operation computes its exact result as a quotient of naturals and takes the
//! nearest representable number, ties going to the even one.

use vstd::arithmetic::div_mod::*;
use vstd::arithmetic::mul::*;
use vstd::arithmetic::power2::*;
use vstd::prelude::*;

use crate::natural::{Natural, Order};

verus! {

/// 2^52: the weight of the implicit leading bit.
pub const HIDDEN: u64 = 0x10_0000_0000_0000;

/// The encoding of positive infinity.
pub const INFINITY: u64 = 0x7ff0_0000_0000_0000;

/// The sign bit.
pub const SIGN: u64 = 0x8000_0000_0000_0000;

/// The encoding of the quiet not-a-number.
pub const NOT_A_NUMBER: u64 = 0x7ff8_0000_0000_0000;

/// One, in units of 2^-1074.
pub open spec fn one_units() -> nat {
    pow2(1074)
}

/// How many bits `x` has beyond the 53 that a significand holds.
pub open spec fn excess(x: nat) -> nat
    decreases x,
{
    if x < 0x20_0000_0000_0000 {
        0
    } else {
        1 + excess(x / 2)
    }
}

/// The natural number nearest to `n / d`; the even one of two equally near.
pub open spec fn half_even(n: nat, d: nat) -> nat {
    if 2 * (n % d) > d || (2 * (n % d) == d && (n / d) % 2 == 1) {
        n / d + 1
    } else {
        n / d
    }
}

/// The encoding of the number nearest to `n / d` units.
pub open spec fn nearest(n: nat, d: nat) -> nat {
    let k = excess(n / d);
    let b = k * HIDDEN as nat + half_even(n, d * pow2(k));
    if b < INFINITY {
        b
    } else {
        INFINITY as nat
    }
}

/// The units in the number that `b` encodes, the sign left aside.
pub open spec fn units_of(b: nat) -> nat {
    let e = b / HIDDEN as nat;
    let f = b % HIDDEN as nat;
    if e == 0 {
        f
    } else {
        (HIDDEN + f) as nat * pow2((e - 1) as nat)
    }
}

// ------------------------------------------------- facts about rounding --

pub(crate) proof fn lemma_consts()
    ensures
        pow2(0) == 1,
        pow2(1) == 2,
        pow2(52) == HIDDEN,
        pow2(53) == 0x20_0000_0000_0000,
        pow2(63) == SIGN,
        pow2(64) == 0x1_0000_0000_0000_0000,
{
    lemma2_to64();
    lemma2_to64_rest();
}

/// The quotient's rounding depends on the ratio alone.
pub proof fn lemma_half_even_scale(n: nat, d: nat, c: nat)
    requires
        d > 0,
        c > 0,
    ensures
        half_even(n * c, d * c) == half_even(n, d),
        (n * c) / (d * c) == n / d,
        d * c > 0,
{
    lemma_mul_strictly_positive(d as int, c as int);
    lemma_mul_is_commutative(n as int, c as int);
    lemma_mul_is_commutative(d as int, c as int);
    lemma_div_multiples_vanish_quotient(c as int, n as int, d as int);
    lemma_truncate_middle(n as int, c as int, d as int);
    let r = n % d;
    assert((n * c) % (d * c) == c * r);
    assert(2 * (c * r) > d * c <==> 2 * r > d) by (nonlinear_arith)
        requires
            c > 0,
    ;
    assert(2 * (c * r) == d * c <==> 2 * r == d) by (nonlinear_arith)
        requires
            c > 0,
    ;
}

/// Equal ratios round alike.
pub proof fn lemma_half_even_ratio(n: nat, d: nat, m: nat, e: nat)
    requires
        d > 0,
        e > 0,
        n * e == m * d,
    ensures
        half_even(n, d) == half_even(m, e),
        n / d == m / e,
{
    lemma_half_even_scale(n, d, e);
    lemma_half_even_scale(m, e, d);
    lemma_mul_is_commutative(d as int, e as int);
}

/// Equal ratios have the same nearest number.
pub proof fn lemma_nearest_ratio(n: nat, d: nat, m: nat, e: nat)
    requires
        d > 0,
        e > 0,
        n * e == m * d,
    ensures
        nearest(n, d) == nearest(m, e),
{
    lemma_half_even_ratio(n, d, m, e);
    let p = pow2(excess(n / d));
    lemma_pow2_pos(excess(n / d));
    lemma_mul_strictly_positive(d as int, p as int);
    lemma_mul_strictly_positive(e as int, p as int);
    assert(n * (e * p) == m * (d * p)) by (nonlinear_arith)
        requires
            n * e == m * d,
    ;
    lemma_half_even_ratio(n, d * p, m, e * p);
}

/// The number of excess bits, from the power of two below.
pub proof fn lemma_excess(x: nat, k: nat)
    requires
        x < pow2(53 + k),
        k == 0 || x >= pow2(52 + k),
    ensures
        excess(x) == k,
    decreases k,
{
    lemma_consts();
    if k > 0 {
        lemma_pow2_unfold(53 + k);
        lemma_pow2_unfold(52 + k);
        if k == 1 {
        } else {
            lemma_pow2_strictly_increases(53, 52 + k);
        }
        lemma_excess(x / 2, (k - 1) as nat);
    }
}

/// What exceeds a power of two has at least the bits of it.
pub proof fn lemma_excess_at_least(x: nat, k: nat)
    requires
        x >= pow2(52 + k),
    ensures
        excess(x) >= k,
    decreases k,
{
    lemma_consts();
    if k > 0 {
        lemma_pow2_unfold(52 + k);
        if k > 1 {
            lemma_pow2_strictly_increases(53, 52 + k);
        }
        lemma_excess_at_least(x / 2, (k - 1) as nat);
    }
}

/// A ratio at least as large as a power of two, as an integer quotient.
proof fn lemma_quotient_at_least(n: nat, d: nat, p: nat)
    requires
        d > 0,
        n >= d * p,
    ensures
        n / d >= p,
{
    assert(n / d >= p) by (nonlinear_arith)
        requires
            d > 0,
            n >= d * p,
    ;
}

proof fn lemma_quotient_below(n: nat, d: nat, p: nat)
    requires
        d > 0,
        n < d * p,
    ensures
        n / d < p,
{
    assert(n / d < p) by (nonlinear_arith)
        requires
            d > 0,
            n < d * p,
    ;
}

/// Scaling a ratio to a 53-bit quotient gives the excess and the significand.
proof fn lemma_scaled(n0: nat, d0: nat, n: nat, d: nat, c: nat, k: nat)
    requires
        d0 > 0,
        c > 0,
        n * pow2(k) == n0 * c,
        d == d0 * c,
        n < d * pow2(53),
        k == 0 || n >= d * pow2(52),
    ensures
        excess(n0 / d0) == k,
        half_even(n0, d0 * pow2(k)) == half_even(n, d),
{
    let p = pow2(k);
    lemma_pow2_pos(k);
    lemma_pow2_adds(53, k);
    lemma_pow2_adds(52, k);
    lemma_mul_strictly_positive(d0 as int, c as int);
    lemma_mul_strictly_positive(d0 as int, p as int);
    let q53 = pow2(53);
    let q52 = pow2(52);
    assert(n0 < d0 * (q53 * p)) by (nonlinear_arith)
        requires
            n * p == n0 * c,
            d == d0 * c,
            n < d * q53,
            c > 0,
            p > 0,
    ;
    lemma_quotient_below(n0, d0, q53 * p);
    if k > 0 {
        assert(n0 >= d0 * (q52 * p)) by (nonlinear_arith)
            requires
                n * p == n0 * c,
                d == d0 * c,
                n >= d * q52,
                c > 0,
                p > 0,
        ;
        lemma_quotient_at_least(n0, d0, q52 * p);
    }
    lemma_excess(n0 / d0, k);
    assert(n0 * d == n * (d0 * p)) by (nonlinear_arith)
        requires
            n * p == n0 * c,
            d == d0 * c,
    ;
    lemma_half_even_ratio(n0, d0 * p, n, d);
}

// ----------------------------------------------------------- the kernel --

/// The encoding of the number nearest to `n * 2^up / (d * 2^down)` units.
pub(crate) fn nearest_bits(n: Natural, d: Natural, up: u64, down: u64) -> (r: u64)
    requires
        n.wf(),
        d.wf(),
        n.base() == 0x1_0000_0000,
        d.base() == 0x1_0000_0000,
        d@ > 0,
        up <= 100_000,
        down <= 100_000,
    ensures
        r == nearest(n@ * pow2(up as nat), d@ * pow2(down as nat)),
        r <= INFINITY,
{
    let ghost n0 = n@ * pow2(up as nat);
    let ghost d0 = d@ * pow2(down as nat);
    proof {
        lemma_consts();
        lemma_pow2_pos(down as nat);
        lemma_mul_strictly_positive(d@ as int, pow2(down as nat) as int);
    }
    let zero = Natural::zero(0x1_0000_0000);
    if let Order::Equal = n.compare(&zero) {
        assert(n0 == 0) by (nonlinear_arith)
            requires
                n0 == n@ * pow2(up as nat),
                n@ == 0,
        ;
        proof {
            lemma_div_of0(d0 as int);
            assert(d0 * pow2(0) == d0);
            lemma_small_mod(0, d0);
        }
        return 0;
    }
    let mut num = n;
    let mut den = d;
    let mut k: u64 = up;
    let mut t: u64 = down;
    while t > 0
        invariant
            den.wf(),
            den.base() == 0x1_0000_0000,
            den@ * pow2(t as nat) == d0,
        decreases t,
    {
        let ghost x = den@;
        den.mul_add(2, 0);
        proof {
            lemma_pow2_unfold(t as nat);
            let p = pow2((t - 1) as nat);
            assert((x * 2 + 0) * p == x * (2 * p)) by (nonlinear_arith);
        }
        t -= 1;
    }
    assert(den@ == d0) by (nonlinear_arith)
        requires
            den@ * pow2(t as nat) == d0,
            pow2(t as nat) == 1,
    ;
    let mut top = den.copy();
    top.mul_add(0x800_0000, 0);
    top.mul_add(0x400_0000, 0);
    let mut mid = den.copy();
    mid.mul_add(0x400_0000, 0);
    mid.mul_add(0x400_0000, 0);
    loop
        invariant
            num.wf(),
            mid.wf(),
            num.base() == 0x1_0000_0000,
            mid.base() == 0x1_0000_0000,
            num@ * pow2(k as nat) == n0,
            num@ > 0,
            mid@ == d0 * pow2(52),
            k <= 100_000,
        ensures
            k == 0 || num@ >= d0 * pow2(52),
        decreases k,
    {
        if k == 0 {
            break;
        }
        if let Order::Less = num.compare(&mid) {
            let ghost x = num@;
            num.mul_add(2, 0);
            proof {
                lemma_pow2_unfold(k as nat);
                let p = pow2((k - 1) as nat);
                assert((x * 2 + 0) * p == x * (2 * p)) by (nonlinear_arith);
            }
            k -= 1;
        } else {
            break;
        }
    }
    let ghost mut c: nat = 1;
    assert(n0 * c == n0 && d0 * c == d0) by (nonlinear_arith)
        requires
            c == 1,
    ;
    loop
        invariant
            num.wf(),
            den.wf(),
            top.wf(),
            num.base() == 0x1_0000_0000,
            den.base() == 0x1_0000_0000,
            top.base() == 0x1_0000_0000,
            c > 0,
            d0 > 0,
            num@ * pow2(k as nat) == n0 * c,
            den@ == d0 * c,
            den@ > 0,
            top@ == den@ * pow2(53),
            k == 0 || num@ >= den@ * pow2(52),
            k <= 100_000,
            n0 == n@ * pow2(up as nat),
            d0 == d@ * pow2(down as nat),
        ensures
            num@ < top@,
        decreases num@ - den@,
    {
        if let Order::Less = num.compare(&top) {
            break;
        }
        proof {
            lemma_consts();
            assert(den@ * pow2(53) >= 2 * den@) by (nonlinear_arith)
                requires
                    pow2(53) == 0x20_0000_0000_0000,
                    den@ > 0,
            ;
        }
        if k >= 2046 {
            proof {
                let p = pow2(k as nat);
                let q = pow2(53);
                lemma_pow2_pos(k as nat);
                lemma_pow2_adds(53, k as nat);
                assert(n0 >= d0 * (q * p)) by (nonlinear_arith)
                    requires
                        num@ * p == n0 * c,
                        den@ == d0 * c,
                        num@ >= den@ * q,
                        c > 0,
                        p > 0,
                ;
                lemma_quotient_at_least(n0, d0, q * p);
                lemma_excess_at_least(n0 / d0, (k + 1) as nat);
                let e = excess(n0 / d0);
                assert(e * HIDDEN >= 2047 * HIDDEN) by (nonlinear_arith)
                    requires
                        e >= 2047,
                ;
            }
            return INFINITY;
        }
        let ghost x = den@;
        den.mul_add(2, 0);
        top.mul_add(2, 0);
        proof {
            let p = pow2(k as nat);
            lemma_pow2_unfold((k + 1) as nat);
            assert(num@ * (2 * p) == n0 * (c * 2)) by (nonlinear_arith)
                requires
                    num@ * p == n0 * c,
            ;
            assert(x * 2 == d0 * (c * 2)) by (nonlinear_arith)
                requires
                    x == d0 * c,
            ;
            assert((x * 2) * pow2(52) == x * pow2(53)) by (nonlinear_arith)
                requires
                    pow2(53) == 2 * pow2(52),
            ;
            assert((x * pow2(53)) * 2 == (x * 2) * pow2(53)) by (nonlinear_arith);
            c = c * 2;
        }
        k += 1;
    }
    let ghost dd = den@;
    let ghost nn = num@;
    let mut rem = num;
    let mut q: u64 = 0;
    let mut i: u64 = 0;
    assert(nn * pow2(0) == 0 * top@ + nn) by (nonlinear_arith)
        requires
            pow2(0) == 1,
    ;
    while i < 53
        invariant
            i <= 53,
            rem.wf(),
            top.wf(),
            rem.base() == 0x1_0000_0000,
            top.base() == 0x1_0000_0000,
            nn * pow2(i as nat) == q * top@ + rem@,
            rem@ < top@,
            q < pow2(i as nat),
        decreases 53 - i,
    {
        let ghost x = rem@;
        proof {
            lemma_consts();
            lemma_pow2_unfold((i + 1) as nat);
            if i + 1 < 53 {
                lemma_pow2_strictly_increases((i + 1) as nat, 53);
            }
            let p = pow2(i as nat);
            let w = top@;
            assert(nn * (2 * p) == (2 * q) * w + 2 * x) by (nonlinear_arith)
                requires
                    nn * p == q * w + x,
            ;
            assert((2 * q + 1) * w == (2 * q) * w + w) by (nonlinear_arith);
        }
        rem.mul_add(2, 0);
        q = q * 2;
        if let Order::Less = rem.compare(&top) {
        } else {
            rem.subtract(&top);
            q = q + 1;
        }
        i += 1;
    }
    proof {
        lemma_consts();
        let w = pow2(53);
        assert(nn * w == q * (dd * w) + rem@);
        let r: int = nn - q * dd;
        assert(rem@ == r * w) by (nonlinear_arith)
            requires
                nn * w == q * (dd * w) + rem@,
                r == nn - q * dd,
        ;
        assert(0 <= r < dd) by (nonlinear_arith)
            requires
                rem@ == r * w,
                0 <= rem@ < dd * w,
                w > 0,
        ;
        lemma_mul_is_commutative(q as int, dd as int);
        lemma_fundamental_div_mod_converse(nn as int, dd as int, q as int, r);
        assert(nn / dd == q && nn % dd == r);
        assert(2 * (r * w) > dd * w <==> 2 * r > dd) by (nonlinear_arith)
            requires
                w > 0,
        ;
        assert(2 * (r * w) == dd * w <==> 2 * r == dd) by (nonlinear_arith)
            requires
                w > 0,
        ;
        lemma_scaled(n0, d0, nn, dd, c, k as nat);
    }
    rem.mul_add(2, 0);
    match rem.compare(&top) {
        Order::Greater => {
            q = q + 1;
        },
        Order::Equal => {
            if q % 2 == 1 {
                q = q + 1;
            }
        },
        Order::Less => {},
    }
    assert(q == half_even(n0, d0 * pow2(k as nat)));
    assert(k * HIDDEN >= 2047 * HIDDEN || k < 2047) by (nonlinear_arith)
        requires
            HIDDEN > 0,
    ;
    if k >= 2047 {
        return INFINITY;
    }
    let b = k * 0x10_0000_0000_0000 + q;
    if b < INFINITY {
        b
    } else {
        INFINITY
    }
}

// ------------------------------------------------------------ the numbers --

/// An IEEE 754 binary64 number, held as its encoding.
///
/// Equality compares encodings; numbers are compared with `less` and
/// `at_most`.
#[derive(Debug, Clone, Copy, PartialEq, Eq, Structural)]
pub struct Binary64 {
    pub bits: u64,
}

/// The number with the given sign and encoded magnitude.
pub open spec fn encode(negative: bool, magnitude: nat) -> Binary64 {
    Binary64 {
        bits: (if negative {
            magnitude + SIGN
        } else {
            magnitude as int
        }) as u64,
    }
}

/// The not-a-number that operations give.
pub open spec fn nan() -> Binary64 {
    Binary64 { bits: NOT_A_NUMBER }
}

/// The number nearest to the integer `n`.
pub open spec fn of_int(n: int) -> Binary64 {
    if n < 0 {
        encode(true, nearest((-n) as nat * one_units(), 1))
    } else {
        encode(false, nearest(n as nat * one_units(), 1))
    }
}

impl Binary64 {
    /// Whether the sign bit is set.
    pub open spec fn negative(self) -> bool {
        self.bits >= SIGN
    }

    /// The encoding without the sign.
    pub open spec fn magnitude(self) -> nat {
        (self.bits % SIGN) as nat
    }

    pub open spec fn is_nan(self) -> bool {
        self.magnitude() > INFINITY
    }

    pub open spec fn is_infinite(self) -> bool {
        self.magnitude() == INFINITY
    }

    pub open spec fn is_finite(self) -> bool {
        self.magnitude() < INFINITY
    }

    /// The units of 2^-1074 in the magnitude.
    pub open spec fn units(self) -> nat {
        units_of(self.magnitude())
    }

    /// The number, in units of 2^-1074; an infinity ranks beyond every finite
    /// number.
    pub open spec fn value(self) -> int {
        if self.negative() {
            -(self.units() as int)
        } else {
            self.units() as int
        }
    }

    /// `self < other`; nothing is less than a not-a-number, nor is it less.
    pub open spec fn lt(self, other: Binary64) -> bool {
        !self.is_nan() && !other.is_nan() && self.value() < other.value()
    }

    /// `self <= other`.
    pub open spec fn le(self, other: Binary64) -> bool {
        !self.is_nan() && !other.is_nan() && self.value() <= other.value()
    }

    /// `self * other`, rounded.
    pub open spec fn product(self, other: Binary64) -> Binary64 {
        let negative = self.negative() != other.negative();
        if self.is_nan() || other.is_nan() {
            nan()
        } else if self.is_infinite() || other.is_infinite() {
            if self.magnitude() == 0 || other.magnitude() == 0 {
                nan()
            } else {
                encode(negative, INFINITY as nat)
            }
        } else {
            encode(negative, nearest(self.units() * other.units(), one_units()))
        }
    }

    /// `self / other`, rounded.
    pub open spec fn quotient(self, other: Binary64) -> Binary64 {
        let negative = self.negative() != other.negative();
        if self.is_nan() || other.is_nan() {
            nan()
        } else if self.is_infinite() {
            if other.is_infinite() {
                nan()
            } else {
                encode(negative, INFINITY as nat)
            }
        } else if other.is_infinite() {
            encode(negative, 0)
        } else if other.magnitude() == 0 {
            if self.magnitude() == 0 {
                nan()
            } else {
                encode(negative, INFINITY as nat)
            }
        } else {
            encode(negative, nearest(self.units() * one_units(), other.units()))
        }
    }

    /// `self + other` for numbers that are neither negative nor infinite, rounded.
    pub open spec fn sum(self, other: Binary64) -> Binary64 {
        encode(false, nearest(self.units() + other.units(), 1))
    }

    /// `self` held between `low` and `high`; a not-a-number stays one.
    pub open spec fn held_between(self, low: Binary64, high: Binary64) -> Binary64 {
        if self.lt(low) {
            low
        } else if high.lt(self) {
            high
        } else {
            self
        }
    }

    /// The integer part, held between zero and `max`; zero for a not-a-number.
    pub open spec fn truncated(self, max: nat) -> nat {
        if self.is_nan() || self.negative() {
            0
        } else if self.units() / one_units() < max {
            self.units() / one_units()
        } else {
            max
        }
    }

    /// The nearest integer, halves going up, for a number that is not negative;
    /// zero for any other, and at most `max`.
    pub open spec fn rounded(self, max: nat) -> nat {
        let n = (2 * self.units() + one_units()) as nat / (2 * one_units()) as nat;
        if self.is_nan() || self.negative() {
            0
        } else if n < max {
            n
        } else {
            max
        }
    }
}

// -------------------------------------------------- order of encodings --

proof fn lemma_units_step(b: nat)
    ensures
        units_of(b) < units_of(b + 1),
{
    lemma_consts();
    let h = HIDDEN as nat;
    let e = b / h;
    let f = b % h;
    lemma_fundamental_div_mod(b as int, h as int);
    if f + 1 < h {
        lemma_fundamental_div_mod_converse((b + 1) as int, h as int, e as int, (f + 1) as int);
        if e > 0 {
            let p = pow2((e - 1) as nat);
            lemma_pow2_pos((e - 1) as nat);
            assert((h + f) * p < (h + (f + 1)) * p) by (nonlinear_arith)
                requires
                    p > 0,
            ;
        }
    } else {
        assert(h * (e + 1) == h * e + h) by (nonlinear_arith);
        lemma_fundamental_div_mod_converse((b + 1) as int, h as int, (e + 1) as int, 0);
        if e > 0 {
            let p = pow2((e - 1) as nat);
            lemma_pow2_pos((e - 1) as nat);
            lemma_pow2_unfold(e);
            assert((h + f) * p < h * (2 * p)) by (nonlinear_arith)
                requires
                    p > 0,
                    f < h,
            ;
        } else {
            assert(h * pow2(0) == h);
        }
    }
}

/// A larger encoding is a larger magnitude.
pub proof fn lemma_units_increase(a: nat, b: nat)
    requires
        a < b,
    ensures
        units_of(a) < units_of(b),
    decreases b - a,
{
    lemma_units_step((b - 1) as nat);
    if a < b - 1 {
        lemma_units_increase(a, (b - 1) as nat);
    }
}

/// Encodings are ordered as the magnitudes they encode.
pub proof fn lemma_units_order(a: nat, b: nat)
    ensures
        a < b <==> units_of(a) < units_of(b),
        a == b <==> units_of(a) == units_of(b),
        units_of(0) == 0,
{
    if a < b {
        lemma_units_increase(a, b);
    }
    if b < a {
        lemma_units_increase(b, a);
    }
}

/// Significand and exponent of a magnitude.
pub(crate) fn decode(m: u64) -> (r: (u64, u64))
    requires
        m <= INFINITY,
    ensures
        units_of(m as nat) == r.0 * pow2(r.1 as nat),
        r.0 < 0x20_0000_0000_0000,
        r.1 <= 2046,
        r.1 > 0 ==> r.0 >= HIDDEN,
        m == 0 <==> r.0 == 0,
{
    let e = m / HIDDEN;
    let f = m % HIDDEN;
    proof {
        lemma_consts();
        assert(f * pow2(0) == f);
    }
    if e == 0 {
        (f, 0)
    } else {
        (HIDDEN + f, e - 1)
    }
}

// ------------------------------------------------------------ operations --

impl Binary64 {
    /// The number that `bits` encode.
    pub fn from_bits(bits: u64) -> (r: Binary64)
        ensures
            r.bits == bits,
    {
        Binary64 { bits }
    }

    /// The encoding.
    pub fn to_bits(&self) -> (r: u64)
        ensures
            r == self.bits,
    {
        self.bits
    }

    fn with_sign(negative: bool, magnitude: u64) -> (r: Binary64)
        requires
            magnitude < SIGN,
        ensures
            r == encode(negative, magnitude as nat),
    {
        if negative {
            Binary64 { bits: magnitude + SIGN }
        } else {
            Binary64 { bits: magnitude }
        }
    }

    /// The number nearest to `n`.
    pub fn from_u128(n: u128) -> (r: Binary64)
        ensures
            r == of_int(n as int),
    {
        let b = nearest_bits(Natural::of(n, 0x1_0000_0000), Natural::of(1, 0x1_0000_0000), 1074, 0);
        proof {
            lemma_consts();
        }
        Binary64::with_sign(false, b)
    }

    /// The number nearest to `n`.
    pub fn from_u64(n: u64) -> (r: Binary64)
        ensures
            r == of_int(n as int),
    {
        Binary64::from_u128(n as u128)
    }

    /// The number nearest to `n`.
    pub fn from_i64(n: i64) -> (r: Binary64)
        ensures
            r == of_int(n as int),
    {
        if n < 0 {
            let a: u128 = (-(n as i128)) as u128;
            let b = nearest_bits(
                Natural::of(a, 0x1_0000_0000),
                Natural::of(1, 0x1_0000_0000),
                1074,
                0,
            );
            proof {
                lemma_consts();
            }
            Binary64::with_sign(true, b)
        } else {
            Binary64::from_u128(n as u128)
        }
    }

    /// Whether this is a not-a-number.
    pub fn nan(&self) -> (r: bool)
        ensures
            r == self.is_nan(),
    {
        self.bits % SIGN > INFINITY
    }

    /// Whether this is neither infinite nor a not-a-number.
    pub fn finite(&self) -> (r: bool)
        ensures
            r == self.is_finite(),
    {
        self.bits % SIGN < INFINITY
    }

    /// `self < other`.
    pub fn less(&self, other: &Binary64) -> (r: bool)
        ensures
            r == self.lt(*other),
    {
        let a = self.bits % SIGN;
        let b = other.bits % SIGN;
        proof {
            lemma_units_order(a as nat, b as nat);
            lemma_units_order(0, a as nat);
            lemma_units_order(0, b as nat);
        }
        if a > INFINITY || b > INFINITY {
            false
        } else if self.bits < SIGN {
            other.bits < SIGN && a < b
        } else if other.bits >= SIGN {
            b < a
        } else {
            a > 0 || b > 0
        }
    }

    /// `self <= other`.
    pub fn at_most(&self, other: &Binary64) -> (r: bool)
        ensures
            r == self.le(*other),
    {
        !self.nan() && !other.nan() && !other.less(self)
    }

    /// `self * other`.
    pub fn times(&self, other: &Binary64) -> (r: Binary64)
        ensures
            r == self.product(*other),
    {
        let a = self.bits % SIGN;
        let b = other.bits % SIGN;
        let negative = (self.bits >= SIGN) != (other.bits >= SIGN);
        if a > INFINITY || b > INFINITY {
            return Binary64 { bits: NOT_A_NUMBER };
        }
        if a == INFINITY || b == INFINITY {
            if a == 0 || b == 0 {
                return Binary64 { bits: NOT_A_NUMBER };
            }
            return Binary64::with_sign(negative, INFINITY);
        }
        let (m, k) = decode(a);
        let (n, l) = decode(b);
        assert(m * n < 0x20_0000_0000_0000 * 0x20_0000_0000_0000) by (nonlinear_arith)
            requires
                m < 0x20_0000_0000_0000,
                n < 0x20_0000_0000_0000,
        ;
        let p: u128 = m as u128 * n as u128;
        let one = Natural::of(1, 0x1_0000_0000);
        let ghost u = self.units() * other.units();
        proof {
            lemma_consts();
            lemma_pow2_adds(k as nat, l as nat);
            lemma_pow2_pos(1074);
            let x = pow2(k as nat);
            let y = pow2(l as nat);
            assert(u == p * (x * y)) by (nonlinear_arith)
                requires
                    u == (m * x) * (n * y),
                    p == m * n,
            ;
        }
        let r = if k + l >= 1074 {
            let s = k + l - 1074;
            proof {
                lemma_pow2_adds(s as nat, 1074);
                let z = pow2(s as nat);
                let w = pow2(1074);
                assert((p * z) * w == u * (1 * 1)) by (nonlinear_arith)
                    requires
                        u == p * (z * w),
                ;
                lemma_nearest_ratio(p as nat * z, 1 * pow2(0), u, one_units());
            }
            nearest_bits(Natural::of(p, 0x1_0000_0000), one, s, 0)
        } else {
            let s = 1074 - (k + l);
            proof {
                let z = pow2(s as nat);
                let v = pow2((k + l) as nat);
                lemma_pow2_adds(s as nat, (k + l) as nat);
                lemma_pow2_pos(s as nat);
                assert((p * 1) * (z * v) == (p * v) * (1 * z)) by (nonlinear_arith);
                lemma_nearest_ratio(p as nat * pow2(0), 1 * z, u, one_units());
            }
            nearest_bits(Natural::of(p, 0x1_0000_0000), one, 0, s)
        };
        Binary64::with_sign(negative, r)
    }

    /// `self / other`.
    pub fn over(&self, other: &Binary64) -> (r: Binary64)
        ensures
            r == self.quotient(*other),
    {
        let a = self.bits % SIGN;
        let b = other.bits % SIGN;
        let negative = (self.bits >= SIGN) != (other.bits >= SIGN);
        if a > INFINITY || b > INFINITY {
            return Binary64 { bits: NOT_A_NUMBER };
        }
        if a == INFINITY {
            if b == INFINITY {
                return Binary64 { bits: NOT_A_NUMBER };
            }
            return Binary64::with_sign(negative, INFINITY);
        }
        if b == INFINITY {
            return Binary64::with_sign(negative, 0);
        }
        if b == 0 {
            if a == 0 {
                return Binary64 { bits: NOT_A_NUMBER };
            }
            return Binary64::with_sign(negative, INFINITY);
        }
        let (m, k) = decode(a);
        let (n, l) = decode(b);
        let num = Natural::of(m as u128, 0x1_0000_0000);
        let den = Natural::of(n as u128, 0x1_0000_0000);
        let ghost u = self.units() * one_units();
        let ghost v = other.units();
        proof {
            lemma_consts();
            lemma_pow2_adds(k as nat, 1074);
            lemma_pow2_pos(l as nat);
            lemma_pow2_pos(k as nat);
            let x = pow2(k as nat);
            let w = pow2(1074);
            let y = pow2(l as nat);
            assert(u == m * (x * w)) by (nonlinear_arith)
                requires
                    u == (m * x) * w,
            ;
            lemma_mul_strictly_positive(n as int, y as int);
        }
        let r = if k + 1074 >= l {
            let s = k + 1074 - l;
            proof {
                lemma_pow2_adds(s as nat, l as nat);
                let z = pow2(s as nat);
                let y = pow2(l as nat);
                assert((m * z) * (n * y) == (m * (z * y)) * (n * 1)) by (nonlinear_arith);
                lemma_nearest_ratio(m as nat * z, n as nat * pow2(0), u, v);
            }
            nearest_bits(num, den, s, 0)
        } else {
            let s = l - (k + 1074);
            proof {
                lemma_pow2_adds(s as nat, (k + 1074) as nat);
                lemma_pow2_pos(s as nat);
                let z = pow2(s as nat);
                let x = pow2((k + 1074) as nat);
                lemma_mul_strictly_positive(n as int, z as int);
                assert((m * 1) * (n * (z * x)) == (m * x) * (n * z)) by (nonlinear_arith);
                lemma_nearest_ratio(m as nat * pow2(0), n as nat * z, u, v);
            }
            nearest_bits(num, den, 0, s)
        };
        Binary64::with_sign(negative, r)
    }

    /// `self` held between `low` and `high`.
    pub fn clamp(&self, low: &Binary64, high: &Binary64) -> (r: Binary64)
        ensures
            r == self.held_between(*low, *high),
    {
        if self.less(low) {
            *low
        } else if high.less(self) {
            *high
        } else {
            *self
        }
    }
}

/// 2^n, for a small `n`.
pub(crate) fn two_to(n: u64) -> (r: u128)
    requires
        n <= 120,
    ensures
        r == pow2(n as nat),
        0 < r,
{
    let mut r: u128 = 1;
    let mut i: u64 = 0;
    proof {
        lemma_consts();
    }
    while i < n
        invariant
            i <= n <= 120,
            r == pow2(i as nat),
        decreases n - i,
    {
        proof {
            lemma_pow2_unfold((i + 1) as nat);
            lemma_below_two_120((i + 1) as nat);
        }
        r = r * 2;
        i += 1;
    }
    proof {
        lemma_pow2_pos(n as nat);
    }
    r
}

proof fn lemma_below_two_120(n: nat)
    requires
        n <= 120,
    ensures
        pow2(n) <= 0x100_0000_0000_0000_0000_0000_0000_0000,
{
    lemma2_to64();
    lemma2_to64_rest();
    lemma_pow2_adds(60, 60);
    assert(pow2(120) == 0x100_0000_0000_0000_0000_0000_0000_0000) by (nonlinear_arith)
        requires
            pow2(120) == pow2(60) * pow2(60),
            pow2(60) == 0x1000_0000_0000_0000,
    ;
    if n < 120 {
        lemma_pow2_strictly_increases(n, 120);
    }
}

pub(crate) proof fn lemma_cancel(a: nat, p: nat, q: nat)
    requires
        p > 0,
        q > 0,
    ensures
        (a * p) / (q * p) == a / q,
        (a * p) / p == a,
        (a * p) % p == 0,
{
    lemma_half_even_scale(a, q, p);
    lemma_mul_is_commutative(a as int, p as int);
    lemma_div_multiples_vanish(a as int, p as int);
    lemma_mod_multiples_basic(a as int, p as int);
}

impl Binary64 {
    /// `self + other`, for numbers that are neither negative nor infinite.
    pub fn plus(&self, other: &Binary64) -> (r: Binary64)
        requires
            self.is_finite(),
            other.is_finite(),
            !self.negative(),
            !other.negative(),
        ensures
            r == self.sum(*other),
    {
        let (m, k) = decode(self.bits);
        let (n, l) = decode(other.bits);
        let (m, k, n, l) = if k >= l {
            (m, k, n, l)
        } else {
            (n, l, m, k)
        };
        let s = k - l;
        let ghost u = self.units() + other.units();
        let one = Natural::of(1, 0x1_0000_0000);
        proof {
            lemma_consts();
            lemma_pow2_adds(s as nat, l as nat);
            let z = pow2(s as nat);
            let y = pow2(l as nat);
            assert(u == (m * z + n) * y) by (nonlinear_arith)
                requires
                    u == m * (z * y) + n * y,
            ;
        }
        let mut total = Natural::of(m as u128, 0x1_0000_0000);
        if s < 32 {
            let z = two_to(s);
            proof {
                if s < 32 {
                    lemma_pow2_strictly_increases(s as nat, 32);
                }
                lemma2_to64();
                assert(m * z < 0x20_0000_0000_0000 * 0x1_0000_0000) by (nonlinear_arith)
                    requires
                        m < 0x20_0000_0000_0000,
                        0 < z < 0x1_0000_0000,
                ;
            }
            total = Natural::of(m as u128 * z + n as u128, 0x1_0000_0000);
        } else {
            let mut i: u64 = 0;
            assert(m * pow2(0) == m);
            while i < s - 32
                invariant
                    i <= s - 32,
                    s >= 32,
                    total.wf(),
                    total.base() == 0x1_0000_0000,
                    total@ == m * pow2(i as nat),
                decreases s - i,
            {
                total.mul_add(2, 0);
                proof {
                    lemma_pow2_unfold((i + 1) as nat);
                    let p = pow2(i as nat);
                    assert((m * p) * 2 + 0 == m * (2 * p)) by (nonlinear_arith);
                }
                i += 1;
            }
            let ghost t = total@;
            total.mul_add(1, (n / 0x1_0000_0000) as u32);
            total.mul_add(0x8000_0000, 0);
            total.mul_add(2, (n % 0x1_0000_0000) as u32);
            proof {
                lemma2_to64();
                lemma_pow2_adds((s - 32) as nat, 32);
                let p = pow2((s - 32) as nat);
                assert(t * 0x1_0000_0000 == m * (p * 0x1_0000_0000)) by (nonlinear_arith)
                    requires
                        t == m * p,
                ;
            }
        }
        assert(total@ == m * pow2(s as nat) + n);
        let ghost t = total@;
        let b = nearest_bits(total, one, l, 0);
        assert(1 * pow2(0) == 1);
        Binary64::with_sign(false, b)
    }

    /// The integer part as a `u64`: zero for negative numbers and for a
    /// not-a-number, the largest `u64` for what exceeds it.
    pub fn to_u64(&self) -> (r: u64)
        ensures
            r == self.truncated(u64::MAX as nat),
    {
        if self.nan() || self.bits >= SIGN {
            return 0;
        }
        let (m, k) = decode(self.bits);
        let ghost u = self.units();
        let ghost w = one_units();
        proof {
            lemma_consts();
            lemma_pow2_pos(1074);
        }
        if k >= 1074 {
            let s = k - 1074;
            proof {
                lemma_pow2_adds(s as nat, 1074);
                let z = pow2(s as nat);
                assert(u == (m * z) * w) by (nonlinear_arith)
                    requires
                        u == m * (z * w),
                ;
                lemma_cancel(m as nat * z, w, 1);
            }
            if s > 64 {
                proof {
                    lemma_pow2_strictly_increases(64, s as nat);
                    let z = pow2(s as nat);
                    assert(m * z >= z) by (nonlinear_arith)
                        requires
                            m >= 1,
                    ;
                }
                return u64::MAX;
            }
            let z = two_to(s);
            proof {
                if s < 64 {
                    lemma_pow2_strictly_increases(s as nat, 64);
                }
                assert(m * z <= 0x20_0000_0000_0000 * 0x1_0000_0000_0000_0000) by (nonlinear_arith)
                    requires
                        m < 0x20_0000_0000_0000,
                        0 < z <= 0x1_0000_0000_0000_0000,
                ;
            }
            let n = m as u128 * z;
            if n < u64::MAX as u128 {
                n as u64
            } else {
                u64::MAX
            }
        } else {
            let s = 1074 - k;
            proof {
                lemma_pow2_adds(s as nat, k as nat);
                lemma_pow2_pos(s as nat);
                lemma_pow2_pos(k as nat);
                lemma_cancel(m as nat, pow2(k as nat), pow2(s as nat));
            }
            if s > 64 {
                proof {
                    lemma_pow2_strictly_increases(64, s as nat);
                    lemma_basic_div(m as int, pow2(s as nat) as int);
                }
                return 0;
            }
            let z = two_to(s);
            assert(m as u128 / z <= m) by (nonlinear_arith)
                requires
                    z > 0,
            ;
            (m as u128 / z) as u64
        }
    }

    /// The nearest integer as a `u64`, halves going up.
    pub fn round_to_u64(&self) -> (r: u64)
        ensures
            r == self.rounded(u64::MAX as nat),
    {
        if self.nan() || self.bits >= SIGN {
            return 0;
        }
        let (m, k) = decode(self.bits);
        let ghost u = self.units();
        let ghost w = one_units();
        proof {
            lemma_consts();
            lemma_pow2_pos(1074);
        }
        if k >= 1074 {
            let r = self.to_u64();
            proof {
                let s = (k - 1074) as nat;
                lemma_pow2_adds(s, 1074);
                let z = pow2(s);
                let n = m as nat * z;
                assert(u == n * w) by (nonlinear_arith)
                    requires
                        u == m * (z * w),
                        n == m * z,
                ;
                lemma_cancel(n, w, 1);
                assert(2 * u + w == n * (2 * w) + w) by (nonlinear_arith)
                    requires
                        u == n * w,
                ;
                lemma_mul_is_commutative(n as int, (2 * w) as int);
                lemma_fundamental_div_mod_converse((2 * u + w) as int, (2 * w) as int, n as int, w as int);
            }
            r
        } else {
            let s = 1074 - k;
            let ghost p = pow2(k as nat);
            let ghost z = pow2(s as nat);
            proof {
                lemma_pow2_adds(s as nat, k as nat);
                lemma_pow2_pos(s as nat);
                lemma_pow2_pos(k as nat);
                assert(2 * u + w == (2 * m + z) * p && 2 * w == (2 * z) * p) by (nonlinear_arith)
                    requires
                        u == m * p,
                        w == z * p,
                ;
                lemma_cancel((2 * m + z) as nat, p, 2 * z);
            }
            if s > 64 {
                proof {
                    lemma_pow2_strictly_increases(64, s as nat);
                    lemma_basic_div((2 * m + z) as int, (2 * z) as int);
                }
                return 0;
            }
            let zz = two_to(s);
            proof {
                if s < 64 {
                    lemma_pow2_strictly_increases(s as nat, 64);
                }
            }
            let n = (2 * m as u128 + zz) / (2 * zz);
            assert(n <= 2 * m + 1) by (nonlinear_arith)
                requires
                    n == (2 * m + zz) / (2 * zz),
                    zz > 0,
            ;
            n as u64
        }
    }
}

// ------------------------------------------------------ laws of rounding --

proof fn lemma_excess_monotone(x: nat, y: nat)
    requires
        x <= y,
    ensures
        excess(x) <= excess(y),
    decreases y,
{
    if x >= 0x20_0000_0000_0000 {
        lemma_excess_monotone(x / 2, y / 2);
    }
}

/// The excess is that of the power of two below.
pub proof fn lemma_excess_bounds(x: nat)
    ensures
        x < pow2(53 + excess(x)),
        excess(x) > 0 ==> x >= pow2(52 + excess(x)),
    decreases x,
{
    lemma_consts();
    if x >= 0x20_0000_0000_0000 {
        lemma_excess_bounds(x / 2);
        lemma_pow2_unfold(53 + excess(x));
        lemma_pow2_unfold(52 + excess(x));
    }
}

proof fn lemma_half_even_monotone(n: nat, d: nat, m: nat, e: nat)
    requires
        d > 0,
        e > 0,
        n * e <= m * d,
    ensures
        half_even(n, d) <= half_even(m, e),
        n / d <= m / e,
{
    let q = n / d;
    let r = n % d;
    let p = m / e;
    let t = m % e;
    lemma_fundamental_div_mod(n as int, d as int);
    lemma_fundamental_div_mod(m as int, e as int);
    lemma_mod_bound(n as int, d as int);
    lemma_mod_bound(m as int, e as int);
    assert(q <= p) by (nonlinear_arith)
        requires
            n == d * q + r,
            m == e * p + t,
            n * e <= m * d,
            0 <= r,
            t < e,
            d > 0,
            e > 0,
    ;
    if q == p {
        assert(r * e <= t * d) by (nonlinear_arith)
            requires
                n == d * q + r,
                m == e * p + t,
                n * e <= m * d,
                q == p,
        ;
        assert(2 * r > d ==> 2 * t > e) by (nonlinear_arith)
            requires
                r * e <= t * d,
                d > 0,
                e > 0,
        ;
        assert(2 * r >= d ==> 2 * t >= e) by (nonlinear_arith)
            requires
                r * e <= t * d,
                d > 0,
                e > 0,
        ;
    }
}

pub proof fn lemma_significand_bounds(n: nat, d: nat)
    requires
        d > 0,
    ensures
        half_even(n, d * pow2(excess(n / d))) <= 0x20_0000_0000_0000,
        excess(n / d) > 0 ==> half_even(n, d * pow2(excess(n / d))) >= HIDDEN,
{
    let x = n / d;
    let k = excess(x);
    let p = pow2(k);
    lemma_consts();
    lemma_pow2_pos(k);
    lemma_excess_bounds(x);
    lemma_pow2_adds(53, k);
    lemma_pow2_adds(52, k);
    lemma_fundamental_div_mod(n as int, d as int);
    lemma_mod_bound(n as int, d as int);
    lemma_mul_strictly_positive(d as int, p as int);
    assert(n < (d * p) * 0x20_0000_0000_0000) by (nonlinear_arith)
        requires
            n == d * x + n % d,
            n % d < d,
            x < 0x20_0000_0000_0000 * p,
            d > 0,
    ;
    lemma_quotient_below(n, d * p, 0x20_0000_0000_0000);
    if k > 0 {
        assert(n >= (d * p) * HIDDEN) by (nonlinear_arith)
            requires
                n == d * x + n % d,
                n % d >= 0,
                x >= HIDDEN * p,
                d > 0,
        ;
        lemma_quotient_at_least(n, d * p, HIDDEN as nat);
    }
}

/// Rounding keeps order: a larger ratio has no smaller a nearest number.
pub proof fn law_nearest_keeps_order(n: nat, d: nat, m: nat, e: nat)
    requires
        d > 0,
        e > 0,
        n * e <= m * d,
    ensures
        nearest(n, d) <= nearest(m, e),
{
    lemma_half_even_monotone(n, d, m, e);
    lemma_excess_monotone(n / d, m / e);
    lemma_significand_bounds(n, d);
    lemma_significand_bounds(m, e);
    let k = excess(n / d);
    let l = excess(m / e);
    if k == l {
        let p = pow2(k);
        lemma_pow2_pos(k);
        lemma_mul_strictly_positive(d as int, p as int);
        lemma_mul_strictly_positive(e as int, p as int);
        assert(n * (e * p) <= m * (d * p)) by (nonlinear_arith)
            requires
                n * e <= m * d,
        ;
        lemma_half_even_monotone(n, d * p, m, e * p);
    } else {
        assert(k * HIDDEN + 0x20_0000_0000_0000 <= l * HIDDEN + HIDDEN) by (nonlinear_arith)
            requires
                k + 1 <= l,
                HIDDEN == 0x10_0000_0000_0000,
        ;
    }
}

/// What is representable is its own nearest number.
pub proof fn law_representable_is_exact(b: nat, c: nat)
    requires
        b < INFINITY,
        c > 0,
    ensures
        nearest(units_of(b) * c, c) == b,
{
    lemma_consts();
    let h = HIDDEN as nat;
    let e = b / h;
    let f = b % h;
    let u = units_of(b);
    lemma_fundamental_div_mod(b as int, h as int);
    assert((u * c) * 1 == u * c) by (nonlinear_arith);
    lemma_nearest_ratio(u * c, c, u, 1);
    assert(u / 1 == u);
    if e == 0 {
        lemma_excess(u, 0);
        assert(half_even(u, 1 * pow2(0)) == u);
    } else {
        let k = (e - 1) as nat;
        let p = pow2(k);
        lemma_pow2_pos(k);
        lemma_pow2_adds(53, k);
        lemma_pow2_adds(52, k);
        assert((h + f) * p < 0x20_0000_0000_0000 * p) by (nonlinear_arith)
            requires
                h + f < 0x20_0000_0000_0000,
                p > 0,
        ;
        assert((h + f) * p >= h * p) by (nonlinear_arith);
        lemma_excess(u, k);
        lemma_cancel((h + f) as nat, p, 1);
        assert(half_even(u, 1 * p) == h + f);
    }
}

/// Whole numbers of at most 128 bits have a finite nearest number, which is
/// zero for zero alone.
pub proof fn law_whole_numbers_are_finite(n: nat)
    requires
        n <= u128::MAX,
    ensures
        of_int(n as int).is_finite(),
        !of_int(n as int).negative(),
        n == 0 <==> of_int(n as int).magnitude() == 0,
        of_int(n as int).magnitude() == nearest(n * one_units(), 1),
{
    lemma_consts();
    let w = one_units();
    lemma_pow2_pos(1074);
    let x = n * w;
    assert(x / 1 == x);
    lemma_pow2_adds(64, 64);
    lemma_pow2_adds(128, 1074);
    assert(pow2(128) == 0x1_0000_0000_0000_0000_0000_0000_0000_0000) by (nonlinear_arith)
        requires
            pow2(128) == pow2(64) * pow2(64),
            pow2(64) == 0x1_0000_0000_0000_0000,
    ;
    assert(x < pow2(128) * w) by (nonlinear_arith)
        requires
            x == n * w,
            n < pow2(128),
            w > 0,
    ;
    lemma_excess_bounds(x);
    lemma_significand_bounds(x, 1);
    let k = excess(x);
    if k > 1150 {
        lemma_pow2_strictly_increases(1202, 52 + k);
    }
    assert(k * HIDDEN <= 1150 * HIDDEN) by (nonlinear_arith)
        requires
            k <= 1150,
    ;
    assert(0 * w == 0);
    assert(half_even(0, 1 * pow2(0)) == 0);
    if n > 0 {
        lemma_one();
        assert(w * 1 <= x * 1) by (nonlinear_arith)
            requires
                x == n * w,
                n >= 1,
        ;
        law_nearest_keeps_order(w, 1, x, 1);
        assert(w * 1 == w);
        law_representable_is_exact(1023 * HIDDEN as nat, 1);
    }
}

/// A quotient of at most one is at most one.
pub proof fn law_proper_fractions(a: nat, b: nat)
    requires
        a <= b,
        0 < b <= u128::MAX,
    ensures
        of_int(a as int).quotient(of_int(b as int)).is_finite(),
        !of_int(a as int).quotient(of_int(b as int)).negative(),
        of_int(a as int).quotient(of_int(b as int)).magnitude() <= 1023 * HIDDEN,
{
    law_whole_numbers_are_finite(a);
    law_whole_numbers_are_finite(b);
    let w = one_units();
    let x = of_int(a as int);
    let y = of_int(b as int);
    assert((a * w) * 1 <= (b * w) * 1) by (nonlinear_arith)
        requires
            a <= b,
    ;
    law_nearest_keeps_order(a * w, 1, b * w, 1);
    lemma_units_order(x.magnitude(), y.magnitude());
    lemma_units_order(0, y.magnitude());
    lemma_one();
    lemma_pow2_pos(1074);
    let u = x.units();
    let v = y.units();
    assert((u * w) * 1 <= w * v) by (nonlinear_arith)
        requires
            u <= v,
    ;
    law_nearest_keeps_order(u * w, v, w, 1);
    assert(w * 1 == w);
    law_representable_is_exact(1023 * HIDDEN as nat, 1);
}

/// One is encoded with the exponent at its bias.
pub proof fn lemma_one()
    ensures
        units_of(1023 * HIDDEN as nat) == one_units(),
{
    lemma_consts();
    let b = 1023 * HIDDEN as nat;
    lemma_fundamental_div_mod_converse(b as int, HIDDEN as int, 1023, 0);
    lemma_pow2_adds(52, 1022);
}

/// `a` as a percentage of `b`.
pub open spec fn percent(a: nat, b: nat) -> Binary64 {
    of_int(a as int).quotient(of_int(b as int)).product(of_int(100))
}

/// A part is between nought and a hundred percent of the whole.
pub proof fn law_percent_of_whole(a: nat, b: nat)
    requires
        a <= b,
        0 < b <= u128::MAX,
    ensures
        of_int(0).le(percent(a, b)),
        percent(a, b).le(of_int(100)),
        percent(a, b).is_finite(),
        !percent(a, b).negative(),
{
    lemma_consts();
    law_proper_fractions(a, b);
    law_whole_numbers_are_finite(0);
    law_whole_numbers_are_finite(100);
    let q = of_int(a as int).quotient(of_int(b as int));
    let h = of_int(100);
    let w = one_units();
    let one = 1023 * HIDDEN as nat;
    lemma_pow2_pos(1074);
    lemma_one();
    lemma_units_order(q.magnitude(), one);
    let u = q.units();
    let v = h.units();
    assert((u * v) * w <= (v * w) * w) by (nonlinear_arith)
        requires
            u <= w,
    ;
    law_nearest_keeps_order(u * v, w, v * w, w);
    law_representable_is_exact(h.magnitude(), w);
    let r = percent(a, b);
    assert(r.magnitude() == nearest(u * v, w));
    lemma_units_order(r.magnitude(), h.magnitude());
    lemma_units_order(0, r.magnitude());
    lemma_units_order(0, h.magnitude());
}

/// Dividing by a positive number gives a number that is not negative.
pub proof fn lemma_quotient_is_a_number(a: Binary64, d: Binary64)
    requires
        a.is_finite(),
        !a.negative(),
        !d.is_nan(),
        !d.negative(),
        d.magnitude() > 0,
    ensures
        !a.quotient(d).is_nan(),
        !a.quotient(d).negative(),
{
}

/// Multiplying by a positive number gives a number that is not negative.
pub proof fn lemma_product_is_a_number(a: Binary64, b: Binary64)
    requires
        !a.is_nan(),
        !a.negative(),
        b.is_finite(),
        !b.negative(),
        b.magnitude() > 0,
    ensures
        !a.product(b).is_nan(),
        !a.product(b).negative(),
{
}

/// A sum of numbers that are not negative is such a number.
pub proof fn lemma_sum_is_a_number(a: Binary64, b: Binary64)
    ensures
        !a.sum(b).is_nan(),
        !a.sum(b).negative(),
{
    let m = nearest(a.units() + b.units(), 1);
    assert(m <= INFINITY);
}

/// A positive number does not vanish when it is multiplied by one of at least
/// one.
pub proof fn lemma_product_stays_positive(a: Binary64, b: Binary64)
    requires
        a.is_finite(),
        !a.negative(),
        a.units() >= one_units(),
        !b.is_nan(),
        !b.negative(),
        b.magnitude() > 0,
    ensures
        !a.product(b).is_nan(),
        !a.product(b).negative(),
        a.product(b).magnitude() > 0,
{
    lemma_consts();
    let w = one_units();
    lemma_pow2_pos(1074);
    lemma_units_order(0, a.magnitude());
    if b.is_finite() {
        let u = b.units();
        let v = a.units();
        assert((u * w) * w <= (v * u) * w) by (nonlinear_arith)
            requires
                v >= w,
        ;
        law_nearest_keeps_order(u * w, w, v * u, w);
        law_representable_is_exact(b.magnitude(), w);
    }
}

/// A positive whole number is at least one.
pub proof fn lemma_whole_number_is_at_least_one(n: nat)
    requires
        0 < n <= u128::MAX,
    ensures
        of_int(n as int).units() >= one_units(),
{
    let w = one_units();
    let one = 1023 * HIDDEN as nat;
    lemma_consts();
    law_whole_numbers_are_finite(n);
    lemma_one();
    assert(w * 1 == w && (n * w) * 1 == n * w && w <= n * w) by (nonlinear_arith)
        requires
            n >= 1,
    ;
    law_nearest_keeps_order(w, 1, n * w, 1);
    law_representable_is_exact(one, 1);
    lemma_units_order(one, of_int(n as int).magnitude());
}

/// The position of the leading bit of `n`.
proof fn lemma_leading_bit(n: nat) -> (k: nat)
    requires
        n > 0,
    ensures
        pow2(k) <= n < pow2(k + 1),
    decreases n,
{
    lemma2_to64();
    if n == 1 {
        0
    } else {
        let k = lemma_leading_bit(n / 2);
        lemma_pow2_unfold(k + 1);
        lemma_pow2_unfold(k + 2);
        k + 1
    }
}

/// Whole numbers of at most 53 bits are represented exactly.
pub proof fn law_small_whole_numbers_are_exact(n: nat)
    requires
        n < 0x20_0000_0000_0000,
    ensures
        of_int(n as int).units() == n * one_units(),
        of_int(n as int).is_finite(),
        !of_int(n as int).negative(),
{
    lemma_consts();
    law_whole_numbers_are_finite(n);
    let w = one_units();
    let h = HIDDEN as nat;
    if n == 0 {
        lemma_units_order(0, 0);
        assert(0 * w == 0);
    } else {
        let k = lemma_leading_bit(n);
        lemma2_to64_rest();
        if k > 53 {
            lemma_pow2_strictly_increases(53, k);
        }
        let p = pow2((52 - k) as nat);
        lemma_pow2_pos((52 - k) as nat);
        lemma_pow2_adds(k, (52 - k) as nat);
        lemma_pow2_adds(k + 1, (52 - k) as nat);
        let f = (n * p - h) as nat;
        assert(h <= n * p < 2 * h) by (nonlinear_arith)
            requires
                pow2(k) * p == h,
                pow2(k + 1) * p == 2 * h,
                pow2(k) <= n < pow2(k + 1),
                p > 0,
        ;
        let b = (k + 1023) * h + f;
        lemma_fundamental_div_mod_converse(b as int, h as int, (k + 1023) as int, f as int);
        lemma_pow2_adds((52 - k) as nat, (k + 1022) as nat);
        assert(units_of(b) == (n * p) * pow2((k + 1022) as nat));
        assert((n * p) * pow2((k + 1022) as nat) == n * (p * pow2((k + 1022) as nat))) by (nonlinear_arith);
        assert(b < INFINITY) by (nonlinear_arith)
            requires
                b == (k + 1023) * h + f,
                f < h,
                k <= 52,
                h == 0x10_0000_0000_0000,
                INFINITY == 0x7ff0_0000_0000_0000,
        ;
        law_representable_is_exact(b, 1);
        assert(units_of(b) * 1 == units_of(b));
    }
}

/// A positive number divided by itself is one.
pub proof fn lemma_quotient_by_itself(x: Binary64)
    requires
        x.is_finite(),
        x.magnitude() > 0,
    ensures
        x.quotient(x) == of_int(1),
{
    lemma_consts();
    let w = one_units();
    lemma_units_order(0, x.magnitude());
    lemma_nearest_ratio(x.units() * w, x.units(), w, 1);
    assert(1 * w == w);
}

/// One times a number is that number.
pub proof fn lemma_one_times(x: Binary64)
    requires
        x.is_finite(),
        !x.negative(),
    ensures
        of_int(1).product(x) == x,
{
    lemma_consts();
    let w = one_units();
    lemma_pow2_pos(1074);
    law_small_whole_numbers_are_exact(1);
    assert(1 * w == w);
    assert(w * x.units() == x.units() * w) by (nonlinear_arith);
    law_representable_is_exact(x.magnitude(), w);
}

/// Nothing divided by a positive number is nothing.
pub proof fn lemma_zero_over(d: Binary64)
    requires
        !d.is_nan(),
        !d.negative(),
        d.magnitude() > 0,
    ensures
        of_int(0).quotient(d) == of_int(0),
        of_int(0).magnitude() == 0,
        of_int(0).bits == 0,
{
    lemma_consts();
    let w = one_units();
    law_small_whole_numbers_are_exact(0);
    law_whole_numbers_are_finite(0);
    lemma_units_order(0, d.magnitude());
    assert(0 * w == 0);
    if d.is_finite() {
        lemma_nearest_of_zero(d.units());
    }
}

proof fn lemma_nearest_of_zero(d: nat)
    requires
        d > 0,
    ensures
        nearest(0, d) == 0,
{
    lemma_consts();
    lemma_units_order(0, 0);
    assert(units_of(0) * d == 0) by (nonlinear_arith)
        requires
            units_of(0) == 0,
    ;
    law_representable_is_exact(0, d);
}

/// A product of whole numbers is exact as long as it has at most 53 bits.
pub proof fn law_small_products_are_exact(a: nat, b: nat)
    requires
        a < 0x20_0000_0000_0000,
        b < 0x20_0000_0000_0000,
        a * b < 0x20_0000_0000_0000,
    ensures
        of_int(a as int).product(of_int(b as int)) == of_int((a * b) as int),
        of_int((a * b) as int).truncated(u64::MAX as nat) == a * b,
{
    lemma_consts();
    let w = one_units();
    lemma_pow2_pos(1074);
    let x = of_int(a as int);
    let y = of_int(b as int);
    let z = of_int((a * b) as int);
    law_small_whole_numbers_are_exact(a);
    law_small_whole_numbers_are_exact(b);
    law_small_whole_numbers_are_exact(a * b);
    assert(x.units() * y.units() == z.units() * w) by (nonlinear_arith)
        requires
            x.units() == a * w,
            y.units() == b * w,
            z.units() == (a * b) * w,
    ;
    law_representable_is_exact(z.magnitude(), w);
    lemma_div_by_multiple((a * b) as int, w as int);
}

/// Whole numbers of at most 53 bits compare as they do, whatever their signs.
pub proof fn law_whole_numbers_keep_their_order(a: int, b: int)
    requires
        -0x20_0000_0000_0000 < a < 0x20_0000_0000_0000,
        -0x20_0000_0000_0000 < b < 0x20_0000_0000_0000,
    ensures
        of_int(a).lt(of_int(b)) <==> a < b,
        of_int(a).le(of_int(b)) <==> a <= b,
{
    lemma_signed_value(a);
    lemma_signed_value(b);
    lemma_pow2_pos(1074);
    let w = one_units() as int;
    assert(a * w < b * w <==> a < b) by (nonlinear_arith)
        requires
            w > 0,
    ;
    assert(a * w <= b * w <==> a <= b) by (nonlinear_arith)
        requires
            w > 0,
    ;
}

proof fn lemma_signed_value(a: int)
    requires
        -0x20_0000_0000_0000 < a < 0x20_0000_0000_0000,
    ensures
        !of_int(a).is_nan(),
        of_int(a).value() == a * one_units(),
{
    let n = (if a < 0 {
        -a
    } else {
        a
    }) as nat;
    lemma_consts();
    law_small_whole_numbers_are_exact(n);
    law_whole_numbers_are_finite(n);
    if a < 0 {
        let m = of_int(n as int).magnitude();
        assert(of_int(a).bits == m + SIGN);
        assert(of_int(a).magnitude() == m);
        assert(-(n * one_units()) == a * one_units()) by (nonlinear_arith)
            requires
                n == -a,
        ;
    }
}

/// What is not a number compares with nothing.
pub proof fn law_not_a_number_compares_with_nothing(x: Binary64, y: Binary64)
    requires
        x.is_nan() || y.is_nan(),
    ensures
        !x.lt(y),
        !x.le(y),
{
}

/// Numbers are ordered: of two, one is less or they are level, and an order
/// holds through a third.
pub proof fn law_numbers_are_ordered(x: Binary64, y: Binary64, z: Binary64)
    requires
        !x.is_nan(),
        !y.is_nan(),
        !z.is_nan(),
    ensures
        x.lt(y) <==> !y.le(x),
        x.le(y) && y.le(z) ==> x.le(z),
        x.le(x),
{
}

/// Quotients of whole numbers depend on the ratio alone.
pub proof fn law_equal_ratios_have_equal_quotients(a: nat, b: nat, c: nat, d: nat)
    requires
        a < 0x20_0000_0000_0000,
        0 < b < 0x20_0000_0000_0000,
        c < 0x20_0000_0000_0000,
        0 < d < 0x20_0000_0000_0000,
        a * d == c * b,
    ensures
        of_int(a as int).quotient(of_int(b as int)) == of_int(c as int).quotient(of_int(d as int)),
{
    let w = one_units();
    lemma_consts();
    lemma_pow2_pos(1074);
    law_small_whole_numbers_are_exact(a);
    law_small_whole_numbers_are_exact(b);
    law_small_whole_numbers_are_exact(c);
    law_small_whole_numbers_are_exact(d);
    law_whole_numbers_are_finite(b);
    law_whole_numbers_are_finite(d);
    lemma_mul_strictly_positive(b as int, w as int);
    lemma_mul_strictly_positive(d as int, w as int);
    assert(((a * w) * w) * (d * w) == ((c * w) * w) * (b * w)) by (nonlinear_arith)
        requires
            a * d == c * b,
    ;
    lemma_nearest_ratio((a * w) * w, b * w, (c * w) * w, d * w);
}

/// A whole number divided by one of its divisors is the other one.
pub proof fn law_whole_quotients_are_exact(a: nat, b: nat)
    requires
        a < 0x20_0000_0000_0000,
        0 < b < 0x20_0000_0000_0000,
        a * b < 0x20_0000_0000_0000,
    ensures
        of_int((a * b) as int).quotient(of_int(b as int)) == of_int(a as int),
{
    let w = one_units();
    lemma_consts();
    lemma_pow2_pos(1074);
    let x = of_int(a as int);
    law_small_whole_numbers_are_exact(a);
    law_small_whole_numbers_are_exact(b);
    law_small_whole_numbers_are_exact(a * b);
    law_whole_numbers_are_finite(b);
    lemma_mul_strictly_positive(b as int, w as int);
    let n = ((a * b) * w) * w;
    assert(n == x.units() * (b * w)) by (nonlinear_arith)
        requires
            n == ((a * b) * w) * w,
            x.units() == a * w,
    ;
    law_representable_is_exact(x.magnitude(), b * w);
}

/// A larger whole number over the same divisor is no smaller.
pub proof fn law_quotients_keep_order(a: nat, c: nat, b: nat)
    requires
        a <= c <= u128::MAX,
        0 < b <= u128::MAX,
    ensures
        of_int(a as int).quotient(of_int(b as int)).le(of_int(c as int).quotient(of_int(b as int))),
        percent(a, b).le(percent(c, b)),
{
    let w = one_units();
    lemma_consts();
    lemma_pow2_pos(1074);
    law_whole_numbers_are_finite(a);
    law_whole_numbers_are_finite(b);
    law_whole_numbers_are_finite(c);
    law_whole_numbers_are_finite(100);
    let x = of_int(a as int);
    let z = of_int(c as int);
    let y = of_int(b as int);
    let h = of_int(100);
    assert((a * w) * 1 <= (c * w) * 1) by (nonlinear_arith)
        requires
            a <= c,
    ;
    law_nearest_keeps_order(a * w, 1, c * w, 1);
    lemma_units_order(x.magnitude(), z.magnitude());
    lemma_units_order(0, y.magnitude());
    lemma_units_order(0, h.magnitude());
    let v = y.units();
    assert((x.units() * w) * v <= (z.units() * w) * v) by (nonlinear_arith)
        requires
            x.units() <= z.units(),
    ;
    law_nearest_keeps_order(x.units() * w, v, z.units() * w, v);
    lemma_quotient_is_a_number(x, y);
    lemma_quotient_is_a_number(z, y);
    let p = x.quotient(y);
    let q = z.quotient(y);
    lemma_units_order(p.magnitude(), q.magnitude());
    lemma_product_is_a_number(p, h);
    lemma_product_is_a_number(q, h);
    if q.is_finite() {
        assert((p.units() * h.units()) * w <= (q.units() * h.units()) * w) by (nonlinear_arith)
            requires
                p.units() <= q.units(),
        ;
        law_nearest_keeps_order(p.units() * h.units(), w, q.units() * h.units(), w);
    }
    lemma_units_order(p.product(h).magnitude(), q.product(h).magnitude());
    lemma_at_most_infinite(p.units() * h.units(), w);
}

proof fn lemma_at_most_infinite(n: nat, d: nat)
    ensures
        nearest(n, d) <= INFINITY,
{
}

/// A quarter of a whole number is exact.
pub proof fn lemma_quarter(a: nat)
    requires
        0 < a < 0x20_0000_0000_0000,
    ensures
        of_int(a as int).quotient(of_int(4)).is_finite(),
        !of_int(a as int).quotient(of_int(4)).negative(),
        of_int(a as int).quotient(of_int(4)).units() * 4 == a * one_units(),
{
    let w = one_units();
    let h = HIDDEN as nat;
    lemma_consts();
    lemma_pow2_pos(1074);
    law_small_whole_numbers_are_exact(a);
    law_whole_numbers_are_finite(a);
    law_small_whole_numbers_are_exact(4);
    law_whole_numbers_are_finite(4);
    lemma_whole_number_is_at_least_one(a);
    lemma_one();
    let x = of_int(a as int);
    lemma_units_order(1023 * h, x.magnitude());
    let m = x.magnitude();
    assert(m >= 1023 * h);
    let b = (m - 2 * h) as nat;
    let e = m / h;
    let f = m % h;
    lemma_fundamental_div_mod(m as int, h as int);
    assert(e >= 1023) by (nonlinear_arith)
        requires
            m == h * e + f,
            f < h,
            m >= 1023 * h,
    ;
    assert(b == (e - 2) * h + f) by (nonlinear_arith)
        requires
            b == m - 2 * h,
            m == h * e + f,
    ;
    lemma_fundamental_div_mod_converse(b as int, h as int, e - 2, f as int);
    lemma_pow2_adds(2, (e - 3) as nat);
    lemma2_to64();
    let p = pow2((e - 3) as nat);
    assert((HIDDEN + f) as nat * (4 * p) == 4 * ((HIDDEN + f) as nat * p)) by (nonlinear_arith);
    assert(units_of(b) * 4 == units_of(m));
    let y = 4 * w;
    assert((a * w) * w == units_of(b) * y) by (nonlinear_arith)
        requires
            units_of(b) * 4 == a * w,
            y == 4 * w,
    ;
    law_representable_is_exact(b, y);
}

/// Quarters of the whole are exact percentages.
pub proof fn law_quarters_are_exact(k: nat, a: nat, b: nat)
    requires
        a < 0x20_0000_0000_0000,
        0 < b < 0x20_0000_0000_0000,
        4 * a == k * b,
        k < 0x1_0000_0000,
    ensures
        percent(a, b) == of_int((25 * k) as int),
{
    let w = one_units();
    lemma_consts();
    lemma_pow2_pos(1074);
    assert(a * 4 == k * b);
    law_equal_ratios_have_equal_quotients(a, b, k, 4);
    if k == 0 {
        law_small_products_are_exact(0, 100);
        law_whole_numbers_are_finite(4);
        lemma_zero_over(of_int(4));
    } else {
        lemma_quarter(k);
        law_small_whole_numbers_are_exact(100);
        law_small_whole_numbers_are_exact(25 * k);
        let q = of_int(k as int).quotient(of_int(4));
        let z = of_int((25 * k) as int);
        let u = q.units();
        assert(u * (100 * w) == z.units() * w) by (nonlinear_arith)
            requires
                u * 4 == k * w,
                z.units() == (25 * k) * w,
        ;
        law_representable_is_exact(z.magnitude(), w);
    }
}

/// The sign of a product and of a quotient is that of its parts together, and the
/// magnitude is that of their magnitudes; what is not a number makes none.
pub proof fn law_signs_multiply(x: Binary64, y: Binary64, minus_x: Binary64)
    requires
        minus_x.magnitude() == x.magnitude(),
        minus_x.negative() != x.negative(),
    ensures
        x.is_nan() || y.is_nan() ==> x.product(y).is_nan() && x.quotient(y).is_nan(),
        x.is_finite() && y.is_finite() ==> x.product(y).negative() == (x.negative() != y.negative()),
        x.is_finite() && y.is_finite() ==> x.product(y).magnitude() == minus_x.product(y).magnitude(),
        x.is_finite() && y.is_finite() && y.magnitude() > 0 ==> x.quotient(y).negative() == (x.negative()
            != y.negative()),
        x.is_finite() && y.is_finite() && y.magnitude() > 0 ==> x.quotient(y).magnitude() == minus_x.quotient(
            y,
        ).magnitude(),
        x.product(y) == y.product(x),
{
    lemma_consts();
    lemma_at_most_infinite(x.units() * y.units(), one_units());
    lemma_at_most_infinite(x.units() * one_units(), y.units());
    assert(x.units() * y.units() == y.units() * x.units()) by (nonlinear_arith);
}

/// A number that is held between two is between them, and is itself where it was.
pub proof fn law_held_between(x: Binary64, low: Binary64, high: Binary64)
    requires
        !x.is_nan(),
        low.le(high),
    ensures
        low.le(x.held_between(low, high)),
        x.held_between(low, high).le(high),
        low.le(x) && x.le(high) ==> x.held_between(low, high) == x,
        x.lt(low) ==> x.held_between(low, high) == low,
        high.lt(x) ==> x.held_between(low, high) == high,
{
}

/// The whole part of a number is the largest whole number that is not larger, and
/// what is rounded is nearest, a half going up. What is negative, or not a
/// number, has none.
pub proof fn law_whole_parts(x: Binary64, max: nat)
    ensures
        x.is_nan() || x.negative() ==> x.truncated(max) == 0 && x.rounded(max) == 0,
        !x.is_nan() && !x.negative() ==> x.truncated(max) * one_units() <= x.units(),
        !x.is_nan() && !x.negative() && x.truncated(max) < max ==> x.units() < (x.truncated(max) + 1)
            * one_units(),
        !x.is_nan() && !x.negative() ==> 2 * (x.rounded(max) * one_units()) <= 2 * x.units() + one_units(),
        !x.is_nan() && !x.negative() && x.rounded(max) < max ==> 2 * x.units() + one_units() < 2 * ((
        x.rounded(max) + 1) * one_units()),
        x.truncated(max) <= max,
        x.rounded(max) <= max,
{
    let w = one_units();
    lemma_pow2_pos(1074);
    let u = x.units();
    let q = u / w;
    lemma_fundamental_div_mod(u as int, w as int);
    lemma_mod_bound(u as int, w as int);
    assert(w * q == q * w && (q + 1) * w == q * w + w) by (nonlinear_arith);
    let d = (2 * w) as nat;
    let n = (2 * u + w) as nat;
    let p = n / d;
    lemma_fundamental_div_mod(n as int, d as int);
    lemma_mod_bound(n as int, d as int);
    assert(d * p == 2 * (p * w) && 2 * ((p + 1) * w) == 2 * (p * w) + d) by (nonlinear_arith)
        requires
            d == 2 * w,
    ;
    if max <= q {
        assert(max * w <= q * w) by (nonlinear_arith)
            requires
                max <= q,
        ;
    }
    if max <= p {
        assert(max * w <= p * w) by (nonlinear_arith)
            requires
                max <= p,
        ;
    }
    assert(0 * w == 0);
}

/// Every number is finite, infinite, or not a number, by its encoding.
pub proof fn law_kinds_of_numbers(x: Binary64)
    ensures
        x.is_finite() <==> x.bits % 0x8000_0000_0000_0000 < 0x7ff0_0000_0000_0000,
        x.is_infinite() <==> x.bits % 0x8000_0000_0000_0000 == 0x7ff0_0000_0000_0000,
        x.is_nan() <==> x.bits % 0x8000_0000_0000_0000 > 0x7ff0_0000_0000_0000,
        x.negative() <==> x.bits >= 0x8000_0000_0000_0000,
{
}

/// A product that is representable is exact.
pub proof fn lemma_exact_product(x: Binary64, y: Binary64, z: Binary64)
    requires
        x.is_finite(),
        y.is_finite(),
        z.is_finite(),
        !x.negative(),
        !y.negative(),
        !z.negative(),
        x.units() * y.units() == z.units() * one_units(),
    ensures
        x.product(y) == z,
{
    lemma_consts();
    lemma_pow2_pos(1074);
    law_representable_is_exact(z.magnitude(), one_units());
}

} // verus!
