//! Natural numbers of any size, as far as correct rounding needs them.

use vstd::prelude::*;

use crate::numbers::{dec, digit_char};

verus! {

/// `b` to the power `i`.
pub open spec fn weight(b: nat, i: nat) -> nat
    decreases i,
{
    if i == 0 {
        1
    } else {
        b * weight(b, (i - 1) as nat)
    }
}

/// Limb `i` of `s`; the limbs beyond its end are zero.
pub open spec fn limb(s: Seq<u32>, i: int) -> nat {
    if 0 <= i < s.len() {
        s[i] as nat
    } else {
        0
    }
}

/// What the lowest `n` limbs of `s` amount to in base `b`.
pub open spec fn low(s: Seq<u32>, b: nat, n: nat) -> nat
    decreases n,
{
    if n == 0 {
        0
    } else {
        low(s, b, (n - 1) as nat) + limb(s, n - 1) * weight(b, (n - 1) as nat)
    }
}

/// The number that the limbs `s` stand for in base `b`, lowest limb first.
pub open spec fn amount(s: Seq<u32>, b: nat) -> nat {
    low(s, b, s.len())
}

pub open spec fn limbs_below(s: Seq<u32>, b: nat) -> bool {
    forall|i: int| 0 <= i < s.len() ==> (#[trigger] s[i]) < b
}

/// How two numbers compare.
#[derive(Clone, Copy, PartialEq, Eq, Structural)]
pub enum Order {
    Less,
    Equal,
    Greater,
}

/// A natural number in base `base`, lowest limb first.
pub struct Natural {
    limbs: Vec<u32>,
    base: u64,
}

impl View for Natural {
    type V = nat;

    closed spec fn view(&self) -> nat {
        amount(self.limbs@, self.base as nat)
    }
}

proof fn lemma_low_same(s: Seq<u32>, t: Seq<u32>, b: nat, n: nat)
    requires
        forall|i: int| 0 <= i < n ==> limb(s, i) == limb(t, i),
    ensures
        low(s, b, n) == low(t, b, n),
    decreases n,
{
    if n > 0 {
        lemma_low_same(s, t, b, (n - 1) as nat);
    }
}

proof fn lemma_low_beyond(s: Seq<u32>, b: nat, n: nat)
    requires
        n >= s.len(),
    ensures
        low(s, b, n) == amount(s, b),
    decreases n,
{
    if n > s.len() {
        lemma_low_beyond(s, b, (n - 1) as nat);
        assert(0 * weight(b, (n - 1) as nat) == 0) by (nonlinear_arith);
    }
}

proof fn lemma_weight_positive(b: nat, i: nat)
    requires
        b > 0,
    ensures
        weight(b, i) > 0,
    decreases i,
{
    if i > 0 {
        lemma_weight_positive(b, (i - 1) as nat);
        assert(b * weight(b, (i - 1) as nat) > 0) by (nonlinear_arith)
            requires
                b > 0,
                weight(b, (i - 1) as nat) > 0,
        ;
    }
}

proof fn lemma_low_bound(s: Seq<u32>, b: nat, n: nat)
    requires
        b > 0,
        limbs_below(s, b),
    ensures
        low(s, b, n) < weight(b, n),
    decreases n,
{
    if n > 0 {
        let m = (n - 1) as nat;
        lemma_low_bound(s, b, m);
        lemma_weight_positive(b, m);
        let l = limb(s, n - 1);
        let w = weight(b, m);
        assert(l <= b - 1);
        assert(l * w + w <= b * w) by (nonlinear_arith)
            requires
                l <= b - 1,
        ;
    }
}

impl Natural {
    /// The base of the limbs.
    pub closed spec fn base(self) -> nat {
        self.base as nat
    }

    /// Every limb is below the base.
    pub closed spec fn wf(self) -> bool {
        &&& 2 <= self.base <= 0x1_0000_0000
        &&& limbs_below(self.limbs@, self.base as nat)
    }

    /// Zero, in base `base`.
    pub fn zero(base: u64) -> (r: Natural)
        requires
            2 <= base <= 0x1_0000_0000,
        ensures
            r.wf(),
            r.base() == base,
            r@ == 0,
    {
        Natural { limbs: Vec::new(), base }
    }

    /// Multiplies by `m` and adds `c`.
    pub fn mul_add(&mut self, m: u32, c: u32)
        requires
            old(self).wf(),
        ensures
            final(self).wf(),
            final(self).base() == old(self).base(),
            final(self)@ == old(self)@ * m + c,
    {
        let ghost s0 = self.limbs@;
        let ghost b = self.base as nat;
        let base = self.base;
        let len = self.limbs.len();
        let mut carry: u64 = c as u64;
        let mut i: usize = 0;
        assert(low(s0, b, 0) * m + c == carry * weight(b, 0)) by (nonlinear_arith)
            requires
                low(s0, b, 0) == 0,
                weight(b, 0) == 1,
                carry == c,
        ;
        while i < len
            invariant
                i <= len,
                len == s0.len(),
                self.limbs@.len() == len,
                self.base == base,
                base == b,
                2 <= b <= 0x1_0000_0000,
                carry <= u32::MAX,
                limbs_below(self.limbs@, b),
                forall|j: int| i <= j < len ==> self.limbs@[j] == s0[j],
                low(self.limbs@, b, i as nat) + carry * weight(b, i as nat) == low(s0, b, i as nat) * m + c,
            decreases len - i,
        {
            let l = self.limbs[i];
            assert(l < b);
            assert(l * m + carry <= u64::MAX && l * m + carry <= (b - 1) * u32::MAX + u32::MAX)
                by (nonlinear_arith)
                requires
                    l <= b - 1,
                    b <= 0x1_0000_0000,
                    0 <= m <= u32::MAX,
                    carry <= u32::MAX,
            ;
            let t: u64 = l as u64 * m as u64 + carry;
            let hi = t / base;
            let lo = (t % base) as u32;
            let ghost s1 = self.limbs@;
            proof {
                assert(hi <= u32::MAX) by (nonlinear_arith)
                    requires
                        t <= (b - 1) * u32::MAX + u32::MAX,
                        hi == t / base,
                        base == b,
                        b >= 2,
                ;
            }
            self.limbs.set(i, lo);
            proof {
                lemma_low_same(self.limbs@, s1, b, i as nat);
                let w = weight(b, i as nat);
                let p1 = low(s1, b, i as nat);
                let p0 = low(s0, b, i as nat);
                assert(weight(b, (i + 1) as nat) == b * w);
                assert(t == hi * b + lo) by (nonlinear_arith)
                    requires
                        hi == t / base,
                        lo == t % base,
                        base == b,
                        b >= 2,
                ;
                assert(p1 + lo * w + hi * (b * w) == (p0 + l * w) * m + c) by (nonlinear_arith)
                    requires
                        p1 + carry * w == p0 * m + c,
                        t == hi * b + lo,
                        t == l * m + carry,
                ;
            }
            carry = hi;
            i += 1;
        }
        while carry > 0
            invariant
                self.base == base,
                base == b,
                2 <= b <= 0x1_0000_0000,
                limbs_below(self.limbs@, b),
                amount(self.limbs@, b) + carry * weight(b, self.limbs@.len()) == amount(s0, b) * m + c,
            decreases carry,
        {
            let ghost s1 = self.limbs@;
            let ghost k0 = carry;
            let ghost n = s1.len();
            let lo = (carry % base) as u32;
            self.limbs.push(lo);
            let hi = carry / base;
            proof {
                lemma_low_same(self.limbs@, s1, b, n);
                let w = weight(b, n);
                assert(weight(b, n + 1) == b * w);
                assert(k0 == hi * b + lo) by (nonlinear_arith)
                    requires
                        hi == k0 / base,
                        lo == k0 % base,
                        base == b,
                        b >= 2,
                ;
                assert(lo * w + hi * (b * w) == k0 * w) by (nonlinear_arith)
                    requires
                        k0 == hi * b + lo,
                ;
                assert(hi < k0) by (nonlinear_arith)
                    requires
                        hi == k0 / base,
                        base >= 2,
                        k0 > 0,
                ;
            }
            carry = hi;
        }
    }

    /// The natural number `n`, in base `base`.
    pub fn of(n: u128, base: u64) -> (r: Natural)
        requires
            2 <= base <= 0x1_0000_0000,
        ensures
            r.wf(),
            r.base() == base,
            r@ == n,
    {
        let mut r = Natural::zero(base);
        r.mul_add(1, (n / 0x1_0000_0000_0000_0000_0000_0000) as u32);
        r.mul_add(0x8000_0000, 0);
        r.mul_add(2, ((n / 0x1_0000_0000_0000_0000) % 0x1_0000_0000) as u32);
        r.mul_add(0x8000_0000, 0);
        r.mul_add(2, ((n / 0x1_0000_0000) % 0x1_0000_0000) as u32);
        r.mul_add(0x8000_0000, 0);
        r.mul_add(2, (n % 0x1_0000_0000) as u32);
        r
    }

    /// The same number again.
    pub fn copy(&self) -> (r: Natural)
        requires
            self.wf(),
        ensures
            r.wf(),
            r.base() == self.base(),
            r@ == self@,
    {
        let mut limbs: Vec<u32> = Vec::new();
        let mut i: usize = 0;
        while i < self.limbs.len()
            invariant
                i <= self.limbs.len(),
                limbs@ == self.limbs@.take(i as int),
            decreases self.limbs.len() - i,
        {
            limbs.push(self.limbs[i]);
            assert(limbs@ =~= self.limbs@.take(i + 1));
            i += 1;
        }
        assert(limbs@ =~= self.limbs@);
        Natural { limbs, base: self.base }
    }

    /// How `self` compares with `other`.
    pub fn compare(&self, other: &Natural) -> (r: Order)
        requires
            self.wf(),
            other.wf(),
            self.base() == other.base(),
        ensures
            match r {
                Order::Less => self@ < other@,
                Order::Equal => self@ == other@,
                Order::Greater => self@ > other@,
            },
    {
        let ghost b = self.base as nat;
        let len = if self.limbs.len() < other.limbs.len() {
            other.limbs.len()
        } else {
            self.limbs.len()
        };
        let mut r = Order::Equal;
        let mut i: usize = 0;
        while i < len
            invariant
                i <= len,
                self.wf(),
                other.wf(),
                b == self.base,
                b == other.base,
                match r {
                    Order::Less => low(self.limbs@, b, i as nat) < low(other.limbs@, b, i as nat),
                    Order::Equal => low(self.limbs@, b, i as nat) == low(other.limbs@, b, i as nat),
                    Order::Greater => low(self.limbs@, b, i as nat) > low(other.limbs@, b, i as nat),
                },
            decreases len - i,
        {
            let x = if i < self.limbs.len() {
                self.limbs[i]
            } else {
                0
            };
            let y = if i < other.limbs.len() {
                other.limbs[i]
            } else {
                0
            };
            proof {
                lemma_low_bound(self.limbs@, b, i as nat);
                lemma_low_bound(other.limbs@, b, i as nat);
                let w = weight(b, i as nat);
                assert(x < y ==> x * w + w <= y * w) by (nonlinear_arith);
                assert(y < x ==> y * w + w <= x * w) by (nonlinear_arith);
            }
            if x < y {
                r = Order::Less;
            } else if x > y {
                r = Order::Greater;
            }
            i += 1;
        }
        proof {
            lemma_low_beyond(self.limbs@, b, len as nat);
            lemma_low_beyond(other.limbs@, b, len as nat);
        }
        r
    }

    /// Subtracts `other`, which is no larger.
    pub fn subtract(&mut self, other: &Natural)
        requires
            old(self).wf(),
            other.wf(),
            old(self).base() == other.base(),
            other@ <= old(self)@,
        ensures
            final(self).wf(),
            final(self).base() == old(self).base(),
            final(self)@ == old(self)@ - other@,
    {
        let ghost s0 = self.limbs@;
        let ghost b = self.base as nat;
        let ghost t = other.limbs@;
        let base = self.base;
        let len = self.limbs.len();
        let mut borrow: u64 = 0;
        let mut i: usize = 0;
        while i < len
            invariant
                i <= len,
                len == s0.len(),
                self.limbs@.len() == len,
                self.base == base,
                base == b,
                other.wf(),
                other.base == base,
                t == other.limbs@,
                2 <= b <= 0x1_0000_0000,
                borrow <= 1,
                limbs_below(self.limbs@, b),
                forall|j: int| i <= j < len ==> self.limbs@[j] == s0[j],
                low(self.limbs@, b, i as nat) + low(t, b, i as nat) == low(s0, b, i as nat) + borrow * weight(
                    b,
                    i as nat,
                ),
            decreases len - i,
        {
            let x = self.limbs[i] as u64;
            let y = if i < other.limbs.len() {
                other.limbs[i] as u64
            } else {
                0
            };
            assert(x < b && y < b);
            let ghost s1 = self.limbs@;
            let ghost b0 = borrow;
            let z: u64;
            if x >= y + borrow {
                z = x - y - borrow;
                borrow = 0;
            } else {
                z = x + base - y - borrow;
                borrow = 1;
            }
            self.limbs.set(i, z as u32);
            proof {
                lemma_low_same(self.limbs@, s1, b, i as nat);
                let w = weight(b, i as nat);
                assert(weight(b, (i + 1) as nat) == b * w);
                let p1 = low(s1, b, i as nat);
                let pt = low(t, b, i as nat);
                let p0 = low(s0, b, i as nat);
                assert((p1 + z * w) + (pt + y * w) == (p0 + x * w) + borrow * (b * w)) by (nonlinear_arith)
                    requires
                        p1 + pt == p0 + b0 * w,
                        z + y + b0 == x + borrow * b,
                ;
            }
            i += 1;
        }
        proof {
            lemma_low_bound(self.limbs@, b, len as nat);
            lemma_low_bound(s0, b, len as nat);
            lemma_low_grows(t, b, len as nat);
            let w = weight(b, len as nat);
            assert(borrow == 1 ==> borrow * w == w) by (nonlinear_arith);
            assert(borrow == 0 ==> borrow * w == 0) by (nonlinear_arith);
            assert(low(t, b, len as nat) == amount(t, b));
            assert(borrow == 0);
        }
    }
}

proof fn lemma_low_grows(s: Seq<u32>, b: nat, n: nat)
    requires
        b > 0,
    ensures
        low(s, b, n) <= amount(s, b),
        low(s, b, n) < amount(s, b) ==> amount(s, b) >= weight(b, n),
    decreases s.len() - n,
{
    if n >= s.len() {
        lemma_low_beyond(s, b, n);
    } else {
        lemma_low_grows(s, b, n + 1);
        lemma_weight_positive(b, n);
        let w = weight(b, n);
        let l = limb(s, n as int);
        assert(l * w >= 0) by (nonlinear_arith);
        assert(b * w >= w) by (nonlinear_arith)
            requires
                b > 0,
        ;
        assert(l > 0 ==> l * w >= w) by (nonlinear_arith);
        assert(l == 0 ==> l * w == 0) by (nonlinear_arith);
    }
}

// --------------------------------------------------------------- writing --

/// What limbs `i` up to `m` amount to in base ten, limb `i` being the units.
spec fn above(s: Seq<u32>, i: nat, m: nat) -> nat
    decreases m - i,
{
    if i >= m {
        0
    } else {
        limb(s, i as int) + 10 * above(s, i + 1, m)
    }
}

proof fn lemma_split(s: Seq<u32>, i: nat, m: nat)
    requires
        i <= m,
    ensures
        low(s, 10, m) == low(s, 10, i) + weight(10, i) * above(s, i, m),
    decreases m - i,
{
    let w = weight(10, i);
    if i < m {
        lemma_split(s, i + 1, m);
        let l = limb(s, i as int);
        let a = above(s, i + 1, m);
        assert(l * w + (10 * w) * a == w * (l + 10 * a)) by (nonlinear_arith);
    } else {
        assert(w * 0 == 0) by (nonlinear_arith);
    }
}

impl Natural {
    /// Appends a number held in base ten.
    pub fn push_decimal(&self, out: &mut String)
        requires
            self.wf(),
            self.base() == 10,
        ensures
            final(out)@ == old(out)@ + dec(self@),
    {
        let ghost before = out@;
        let ghost s = self.limbs@;
        let mut m: usize = self.limbs.len();
        while m > 0 && self.limbs[m - 1] == 0
            invariant
                m <= self.limbs.len(),
                s == self.limbs@,
                low(s, 10, m as nat) == low(s, 10, s.len()),
            decreases m,
        {
            assert(0 * weight(10, (m - 1) as nat) == 0) by (nonlinear_arith);
            m -= 1;
        }
        assert(self@ == low(s, 10, m as nat));
        if m == 0 {
            out.push('0');
            assert(digit_char(0) == '0');
            assert(out@ =~= before + dec(0));
            return;
        }
        let mut j: usize = m;
        while j > 0
            invariant
                0 < m <= self.limbs.len(),
                j <= m,
                s == self.limbs@,
                self.wf(),
                self.base == 10,
                self.limbs@[m - 1] != 0,
                j == m ==> out@ == before,
                j < m ==> above(s, j as nat, m as nat) > 0 && out@ == before + dec(
                    above(s, j as nat, m as nat),
                ),
            decreases j,
        {
            let d = self.limbs[j - 1];
            assert(d < 10);
            out.push((48 + d as u8) as char);
            proof {
                let a = above(s, j as nat, m as nat);
                let b = above(s, (j - 1) as nat, m as nat);
                assert(b == d + 10 * a);
                if j == m {
                    assert(a == 0);
                    assert(dec(b) =~= seq![digit_char(d as nat)]);
                } else {
                    assert(b / 10 == a && b % 10 == d);
                    assert(dec(b) =~= dec(a).push(digit_char(d as nat)));
                }
                assert(out@ =~= before + dec(b));
            }
            j -= 1;
        }
        proof {
            lemma_split(s, 0, m as nat);
            let a = above(s, 0, m as nat);
            assert(weight(10, 0) * a == a) by (nonlinear_arith)
                requires
                    weight(10, 0) == 1,
            ;
        }
    }
}

} // verus!
