use vstd::prelude::*;
use vstd::arithmetic::power2::*;
use vstd::arithmetic::div_mod::lemma_fundamental_div_mod;
use super::lemmas::{p2, lemma_pow2_words, lemma_div_mod_unique, lemma_top_bit_step};

verus! {

/// 2^64, the weight of one limb.
pub open spec fn w1() -> int {
    0x1_0000_0000_0000_0000int
}

pub open spec fn w2() -> int {
    0x1_0000_0000_0000_0000_0000_0000_0000_0000int
}

pub open spec fn w3() -> int {
    0x1_0000_0000_0000_0000_0000_0000_0000_0000_0000_0000_0000_0000int
}

/// 2^256.
pub open spec fn w4() -> int {
    0x1_0000_0000_0000_0000_0000_0000_0000_0000_0000_0000_0000_0000_0000_0000_0000_0000int
}

/// The number that four little-endian 64-bit limbs stand for.
pub open spec fn val4(l: [u64; 4]) -> int {
    l[0] + w1() * l[1] + w2() * l[2] + w3() * l[3]
}

/// A 256-bit unsigned integer as four little-endian 64-bit limbs.
#[derive(Clone, Copy, Debug, PartialEq, Eq, Hash)]
pub struct U256(pub [u64; 4]);

impl U256 {
    /// The number this value stands for.
    pub open spec fn value(self) -> int {
        val4(self.0)
    }
}

/// 2^255.
pub open spec fn half() -> int {
    0x8000_0000_0000_0000_0000_0000_0000_0000_0000_0000_0000_0000_0000_0000_0000_0000int
}

/// The top limb's top bit is the value's bit 255.
proof fn lemma_top_bit(x: U256)
    ensures
        x.value() / half() == x.0[3] / 0x8000_0000_0000_0000u64,
        x.0[3] >> 63u64 == x.0[3] / 0x8000_0000_0000_0000u64,
{
    let x3 = x.0[3];
    let c3 = x3 >> 63u64;
    assert(c3 == x3 / 0x8000_0000_0000_0000u64 && c3 <= 1) by (bit_vector)
        requires c3 == x3 >> 63u64;
    let h = 0x8000_0000_0000_0000int;
    let m = x3 - h * c3;
    assert(0 <= m < h);
    let low = x.0[0] + w1() * x.0[1] + w2() * x.0[2];
    assert(0 <= low < w3());
    assert(w3() * x3 == half() * c3 + w3() * m) by (nonlinear_arith)
        requires x3 == h * c3 + m, h == 0x8000_0000_0000_0000int,
            half() == 0x8000_0000_0000_0000_0000_0000_0000_0000_0000_0000_0000_0000_0000_0000_0000_0000int,
            w3() == 0x1_0000_0000_0000_0000_0000_0000_0000_0000_0000_0000_0000_0000int;
    assert(x.value() == half() * c3 + w3() * m + low);
    assert(w3() * m + low < half()) by (nonlinear_arith)
        requires 0 <= m < h, 0 <= low < w3(), h == 0x8000_0000_0000_0000int,
            half() == 0x8000_0000_0000_0000_0000_0000_0000_0000_0000_0000_0000_0000_0000_0000_0000_0000int,
            w3() == 0x1_0000_0000_0000_0000_0000_0000_0000_0000_0000_0000_0000_0000int;
    assert(x.value() / half() == c3);
}

pub proof fn lemma_value_range(x: U256)
    ensures
        0 <= x.value() < w4(),
{
}

/// `a + b + carry` as a low limb and a carry out.
pub(crate) fn add_limb(a: u64, b: u64, carry: u64) -> (r: (u64, u64))
    requires
        carry <= 1,
    ensures
        r.0 + w1() * r.1 == a + b + carry,
        r.1 <= 1,
{
    let s1 = a.wrapping_add(b);
    let o1 = s1 < a;
    let s2 = s1.wrapping_add(carry);
    let o2 = s2 < s1;
    (s2, if o1 || o2 { 1 } else { 0 })
}

/// `a - b - borrow` as a low limb and a borrow out.
fn sub_limb(a: u64, b: u64, borrow: u64) -> (r: (u64, u64))
    requires
        borrow <= 1,
    ensures
        r.0 - w1() * r.1 == a - b - borrow,
        r.1 <= 1,
{
    let s1 = a.wrapping_sub(b);
    let o1 = a < b;
    let s2 = s1.wrapping_sub(borrow);
    let o2 = s1 < borrow;
    (s2, if o1 || o2 { 1 } else { 0 })
}

impl U256 {
    pub fn zero() -> (r: Self)
        ensures
            r.value() == 0,
    {
        U256([0u64; 4])
    }

    pub fn one() -> (r: Self)
        ensures
            r.value() == 1,
    {
        U256([1, 0, 0, 0])
    }

    pub fn from_u64(v: u64) -> (r: Self)
        ensures
            r.value() == v,
    {
        U256([v, 0, 0, 0])
    }

    pub fn is_zero(&self) -> (r: bool)
        ensures
            r == (self.value() == 0),
    {
        self.0[0] == 0 && self.0[1] == 0 && self.0[2] == 0 && self.0[3] == 0
    }

    pub fn is_even(&self) -> (r: bool)
        ensures
            r == (self.value() % 2 == 0),
    {
        self.0[0] % 2 == 0
    }

    /// Addition with the carry out: the sum modulo 2^256 and whether it reached 2^256.
    pub fn overflowing_add(self, other: U256) -> (r: (U256, bool))
        ensures
            r.0.value() + (if r.1 { w4() } else { 0 }) == self.value() + other.value(),
            r.0.value() == (self.value() + other.value()) % w4(),
            r.1 == (self.value() + other.value() >= w4()),
    {
        let (s0, c0) = add_limb(self.0[0], other.0[0], 0);
        let (s1, c1) = add_limb(self.0[1], other.0[1], c0);
        let (s2, c2) = add_limb(self.0[2], other.0[2], c1);
        let (s3, c3) = add_limb(self.0[3], other.0[3], c2);
        let res = U256([s0, s1, s2, s3]);
        proof {
            lemma_value_range(res);
        }
        (res, c3 > 0)
    }

    /// Subtraction with the borrow out: the difference modulo 2^256 and whether it went below zero.
    pub fn overflowing_sub(self, other: U256) -> (r: (U256, bool))
        ensures
            r.0.value() - (if r.1 { w4() } else { 0 }) == self.value() - other.value(),
            r.0.value() == (self.value() - other.value() + w4()) % w4(),
            r.1 == (self.value() < other.value()),
    {
        let (s0, c0) = sub_limb(self.0[0], other.0[0], 0);
        let (s1, c1) = sub_limb(self.0[1], other.0[1], c0);
        let (s2, c2) = sub_limb(self.0[2], other.0[2], c1);
        let (s3, c3) = sub_limb(self.0[3], other.0[3], c2);
        let res = U256([s0, s1, s2, s3]);
        proof {
            lemma_value_range(res);
            lemma_value_range(self);
            lemma_value_range(other);
        }
        (res, c3 > 0)
    }

    /// Shift left by 1: twice the value, modulo 2^256.
    pub fn shl1(&self) -> (r: U256)
        ensures
            r.value() == (2 * self.value()) % w4(),
            r.value() + w4() * (self.value() / half()) == 2 * self.value(),
    {
        self.shl1_in(0)
    }

    /// Twice the value plus `bit`, modulo 2^256.
    pub(crate) fn shl1_in(&self, bit: u64) -> (r: U256)
        requires
            bit <= 1,
        ensures
            r.value() == (2 * self.value() + bit) % w4(),
            r.value() + w4() * (self.value() / half()) == 2 * self.value() + bit,
    {
        let (l0, c0) = shl_limb(self.0[0], bit);
        let (l1, c1) = shl_limb(self.0[1], c0);
        let (l2, c2) = shl_limb(self.0[2], c1);
        let (l3, c3) = shl_limb(self.0[3], c2);
        let r = U256([l0, l1, l2, l3]);
        proof {
            lemma_value_range(r);
            lemma_value_range(*self);
            lemma_top_bit(*self);
        }
        r
    }

    /// The top bit: the value divided by 2^255.
    pub(crate) fn top_bit(&self) -> (b: u64)
        ensures
            b == self.value() / half(),
            b <= 1,
    {
        proof {
            lemma_top_bit(*self);
        }
        self.0[3] >> 63u64
    }

    /// Shift right by 1: half the value, rounded down.
    pub fn shr1(&self) -> (r: U256)
        ensures
            r.value() == self.value() / 2,
    {
        let x = self.0;
        let l3 = shr_limb(x[3], 0);
        let l2 = shr_limb(x[2], x[3]);
        let l1 = shr_limb(x[1], x[2]);
        let l0 = shr_limb(x[0], x[1]);
        let r = U256([l0, l1, l2, l3]);
        r
    }

    /// Whether this value is below `other`.
    pub fn lt(&self, other: &U256) -> (r: bool)
        ensures
            r == (self.value() < other.value()),
    {
        let a = self.0;
        let b = other.0;
        if a[3] != b[3] {
            a[3] < b[3]
        } else if a[2] != b[2] {
            a[2] < b[2]
        } else if a[1] != b[1] {
            a[1] < b[1]
        } else {
            a[0] < b[0]
        }
    }

    /// Whether this value is at least `other`.
    pub fn ge(&self, other: &U256) -> (r: bool)
        ensures
            r == (self.value() >= other.value()),
    {
        !self.lt(other)
    }

    /// Whether both values are the same number.
    pub fn equals(&self, other: &U256) -> (r: bool)
        ensures
            r == (self.value() == other.value()),
            r == (self == other),
    {
        let a = self.0;
        let b = other.0;
        let r = a[0] == b[0] && a[1] == b[1] && a[2] == b[2] && a[3] == b[3];
        proof {
            if r {
                assert(self.0 =~= other.0);
            }
        }
        r
    }
}

/// `2 * x + carry` as a low limb and the bit shifted out.
fn shl_limb(x: u64, carry: u64) -> (r: (u64, u64))
    requires
        carry <= 1,
    ensures
        r.0 + w1() * r.1 == 2 * x + carry,
        r.1 == x / 0x8000_0000_0000_0000,
        r.1 <= 1,
{
    let lo: u64 = (x << 1u64) | carry;
    let hi: u64 = x >> 63u64;
    assert(lo + 0x1_0000_0000_0000_0000int * hi == 2 * x + carry && hi == x / 0x8000_0000_0000_0000 && hi <= 1) by (bit_vector)
        requires
            carry <= 1,
            lo == (x << 1u64) | carry,
            hi == x >> 63u64;
    (lo, hi)
}

/// The low limb of `(x + 2^64 * next) / 2`.
fn shr_limb(x: u64, next: u64) -> (r: u64)
    ensures
        r == x / 2 + 0x8000_0000_0000_0000 * (next % 2),
{
    let r: u64 = (x >> 1u64) | (next << 63u64);
    assert(r == x / 2 + 0x8000_0000_0000_0000 * (next % 2)) by (bit_vector)
        requires r == (x >> 1u64) | (next << 63u64);
    r
}

/// The full 128-bit product of two limbs as (low, high).
pub fn mul_u64(a: u64, b: u64) -> (r: (u64, u64))
    ensures
        r.0 + w1() * r.1 == a * b,
{
    assert((a as int) * (b as int) <= 0xffff_ffff_ffff_ffffint * 0xffff_ffff_ffff_ffffint) by (nonlinear_arith)
        requires a <= 0xffff_ffff_ffff_ffffu64, b <= 0xffff_ffff_ffff_ffffu64;
    let res: u128 = (a as u128) * (b as u128);
    let lo: u64 = (res % 0x1_0000_0000_0000_0000u128) as u64;
    let hi: u64 = (res / 0x1_0000_0000_0000_0000u128) as u64;
    (lo, hi)
}

impl U256 {

    /// Quotient and remainder by shift-and-subtract, one bit at a time from the top.
    pub fn div_rem(self, other: U256) -> (r: (U256, U256))
        requires
            other.value() != 0,
        ensures
            r.0.value() == self.value() / other.value(),
            r.1.value() == self.value() % other.value(),
    {
        proof {
            lemma_value_range(self);
            lemma_value_range(other);
        }
        if self.lt(&other) {
            proof {
                lemma_div_mod_unique(self.value(), other.value(), 0, self.value());
            }
            return (U256::zero(), self);
        }
        let ghost d = other.value();
        let mut q = U256::zero();
        let mut r = U256::zero();
        let mut s = self;
        let ghost mut prefix: int = 0;
        let ghost mut low: int = self.value();
        let mut k: u32 = 0;
        proof {
            lemma_pow2_words();
            lemma2_to64();
            lemma_div_mod_unique(0, d, 0, 0);
            assert(p2(0) == 1);
            assert(p2(256) == w4());
        }
        while k < 256
            invariant
                k <= 256,
                d == other.value(),
                d > 0,
                self.value() == prefix * p2(256 - k) + low,
                0 <= low < p2(256 - k),
                s.value() == low * p2(k as int),
                0 <= prefix < p2(k as int),
                q.value() == prefix / d,
                r.value() == prefix % d,
            decreases 256 - k,
        {
            let top = s.top_bit();
            proof {
                lemma_top_bit_step(self.value(), prefix, low, s.value(), k as nat);
                lemma_pow2_words();
                lemma_pow2_adds(k as nat, 1);
                lemma2_to64();
                if k < 255 {
                    lemma_pow2_strictly_increases(k as nat, 255);
                }
                lemma_value_range(r);
                lemma_value_range(q);
                lemma_fundamental_div_mod(prefix, d);
                assert(r.value() <= prefix) by (nonlinear_arith)
                    requires prefix == d * q.value() + r.value(), q.value() >= 0, d > 0, r.value() >= 0;
                assert(q.value() <= prefix) by (nonlinear_arith)
                    requires prefix == d * q.value() + r.value(), q.value() >= 0, d >= 1, r.value() >= 0;
                assert(r.value() < d);
            }
            s = s.shl1();
            let r2 = r.shl1_in(top);
            let ghost new_prefix = 2 * prefix + top;
            let ghost old_q = q.value();
            let ghost old_r = r.value();
            assert(r2.value() == 2 * r.value() + top);
            assert(new_prefix == d * (2 * old_q) + (2 * old_r + top)) by (nonlinear_arith)
                requires new_prefix == 2 * prefix + top, prefix == d * old_q + old_r;
            if r2.ge(&other) {
                r = r2.overflowing_sub(other).0;
                q = q.shl1_in(1);
                proof {
                    assert(q.value() == 2 * old_q + 1);
                    assert(r.value() == 2 * old_r + top - d);
                    assert(new_prefix == q.value() * d + r.value()) by (nonlinear_arith)
                        requires new_prefix == d * (2 * old_q) + (2 * old_r + top),
                            q.value() == 2 * old_q + 1, r.value() == 2 * old_r + top - d;
                    lemma_div_mod_unique(new_prefix, d, q.value(), r.value());
                }
            } else {
                r = r2;
                q = q.shl1_in(0);
                proof {
                    assert(q.value() == 2 * old_q);
                    assert(new_prefix == q.value() * d + r.value()) by (nonlinear_arith)
                        requires new_prefix == d * (2 * old_q) + (2 * old_r + top),
                            q.value() == 2 * old_q, r.value() == 2 * old_r + top;
                    lemma_div_mod_unique(new_prefix, d, q.value(), r.value());
                }
            }
            proof {
                prefix = new_prefix;
                low = low % p2(255 - k);
            }
            k = k + 1;
        }
        proof {
            lemma2_to64();
            assert(p2(0) == 1);
            assert(p2(256 - k) == 1);
            assert(low == 0);
            assert(self.value() == prefix * 1 + 0);
        }
        (q, r)
    }
}

} // verus!
