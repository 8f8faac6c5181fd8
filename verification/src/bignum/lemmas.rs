use vstd::prelude::*;
use vstd::arithmetic::power2::*;
use vstd::arithmetic::div_mod::*;
use super::u256::{w1, w2, w3, w4, half};

verus! {

/// 2^e as an integer.
pub open spec fn p2(e: int) -> int {
    pow2(e as nat) as int
}

pub proof fn lemma_pow2_words()
    ensures
        pow2(64) == w1(),
        pow2(128) == w2(),
        pow2(192) == w3(),
        pow2(256) == w4(),
        pow2(255) == half(),
        pow2(63) == 0x8000_0000_0000_0000int,
{
    lemma2_to64();
    lemma2_to64_rest();
    lemma_pow2_adds(64, 64);
    lemma_pow2_adds(128, 64);
    lemma_pow2_adds(192, 64);
    lemma_pow2_adds(192, 63);
    lemma_pow2_adds(64, 63);
}

/// If `q * d <= x < q * d + d` then `q` and `x - q * d` are the quotient and remainder.
pub proof fn lemma_div_mod_unique(x: int, d: int, q: int, r: int)
    requires
        d > 0,
        x == q * d + r,
        0 <= r < d,
    ensures
        x / d == q,
        x % d == r,
{
    lemma_fundamental_div_mod_converse(x, d, q, r);
}

/// One step of reading a number's bits from the top: `x` split at bit `256 - k`
/// into `prefix` and `low`, and `s` the low part shifted to the top of 256 bits.
pub proof fn lemma_top_bit_step(x: int, prefix: int, low: int, s: int, k: nat)
    requires
        k < 256,
        0 <= low < p2(256 - k),
        x == prefix * p2(256 - k) + low,
        s == low * p2(k as int),
    ensures
        s / half() == low / p2(255 - k),
        s / half() <= 1,
        0 <= low % p2(255 - k) < p2(255 - k),
        x == (2 * prefix + s / half()) * p2(255 - k) + low % p2(255 - k),
        (2 * s) % w4() == (low % p2(255 - k)) * p2(k as int + 1),
        2 * s == (s / half()) * w4() + (low % p2(255 - k)) * p2(k as int + 1),
{
    let p = p2(255 - k);
    let q = p2(k as int);
    lemma_pow2_words();
    lemma_pow2_pos((255 - k) as nat);
    lemma_pow2_pos(k);
    lemma_pow2_adds((255 - k) as nat, k);
    lemma_pow2_adds((255 - k) as nat, 1);
    lemma_pow2_adds(k, 1);
    assert((255 - k) as nat + 1 == (256 - k) as nat);
    lemma2_to64();
    assert(p * q == half());
    assert(p2(256 - k) == 2 * p);
    assert(p2(k as int + 1) == 2 * q);
    let top = low / p;
    let low2 = low % p;
    lemma_fundamental_div_mod(low, p);
    assert(low == p * top + low2);
    assert(0 <= low2 < p);
    assert(0 <= top <= 1) by (nonlinear_arith)
        requires low == p * top + low2, 0 <= low2 < p, 0 <= low < 2 * p, p > 0;
    assert(s == top * half() + low2 * q) by (nonlinear_arith)
        requires s == low * q, low == p * top + low2, p * q == half();
    assert(low2 * q < half()) by (nonlinear_arith)
        requires 0 <= low2 < p, q > 0, p * q == half();
    assert(low2 * q >= 0) by (nonlinear_arith)
        requires 0 <= low2, q > 0;
    lemma_div_mod_unique(s, half(), top, low2 * q);
    assert(x == (2 * prefix + top) * p + low2) by (nonlinear_arith)
        requires x == prefix * (2 * p) + low, low == p * top + low2;
    assert(2 * s == top * w4() + low2 * (2 * q)) by (nonlinear_arith)
        requires s == top * half() + low2 * q, w4() == 2 * half();
    assert(low2 * (2 * q) < w4()) by (nonlinear_arith)
        requires low2 * q < half(), w4() == 2 * half();
    assert(low2 * (2 * q) >= 0) by (nonlinear_arith)
        requires 0 <= low2, q > 0;
    lemma_div_mod_unique(2 * s, w4(), top, low2 * (2 * q));
}

} // verus!
