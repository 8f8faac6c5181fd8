use vstd::prelude::*;
use vstd::arithmetic::div_mod::*;
use super::u256::{U256, w1, w2, w3, w4, add_limb, lemma_value_range};
use super::wide::{wt, val8, pre4, mac, lemma_wt_mul, lemma_wt_next, lemma_pre4_step, lemma_val8_update, lemma_row_step};
use super::lemmas::lemma_div_mod_unique;

verus! {

/// `n0_inv` is the Montgomery constant of `n`: `n[0] * n0_inv == -1` modulo 2^64.
pub open spec fn is_mont_constant(n: U256, n0_inv: u64) -> bool {
    (n.0[0] * n0_inv) % w1() == w1() - 1
}

/// With `t[i]` cleared by the row multiplier `m = t[i] * n0_inv`, adding `m * n[0]`
/// to `t[i]` gives a multiple of 2^64.
proof fn lemma_row_clears(ti: u64, n0: u64, n0_inv: u64, m: u64)
    requires
        (n0 * n0_inv) % w1() == w1() - 1,
        m == (ti * n0_inv) % w1(),
    ensures
        (ti + m * n0) % w1() == 0,
{
    let w = w1();
    let x = n0 * n0_inv;
    let y = ti * n0_inv;
    lemma_fundamental_div_mod(x, w);
    let a = x / w;
    assert(x + 1 == w * (a + 1));
    lemma_fundamental_div_mod(y, w);
    let b = y / w;
    assert(y == w * b + m);
    assert(m * n0 == y * n0 - (w * b) * n0) by (nonlinear_arith)
        requires m == y - w * b;
    assert(y * n0 == ti * x) by (nonlinear_arith)
        requires y == ti * n0_inv, x == n0 * n0_inv;
    assert(ti * x + ti == ti * (x + 1)) by (nonlinear_arith);
    assert(ti * (x + 1) == w * (ti * (a + 1))) by (nonlinear_arith)
        requires x + 1 == w * (a + 1);
    assert((w * b) * n0 == w * (b * n0)) by (nonlinear_arith);
    assert(ti + m * n0 == w * (ti * (a + 1)) - w * (b * n0));
    assert(w * (ti * (a + 1)) - w * (b * n0) == w * (ti * (a + 1) - b * n0)) by (nonlinear_arith);
    lemma_div_mod_unique(ti + m * n0, w, ti * (a + 1) - b * n0, 0);
}

/// Eight limbs whose low four are zero stand for 2^256 times the high four.
proof fn lemma_high_half(t: [u64; 8], hi: U256)
    requires
        t[0] == 0,
        t[1] == 0,
        t[2] == 0,
        t[3] == 0,
        hi.0[0] == t[4],
        hi.0[1] == t[5],
        hi.0[2] == t[6],
        hi.0[3] == t[7],
    ensures
        val8(t) == w4() * hi.value(),
{
    let w4v = w4();
    assert(wt(5) == w4v * w1());
    assert(wt(6) == w4v * w2());
    assert(wt(7) == w4v * w3());
    assert(val8(t) == w4v * t[4] + (w4v * w1()) * t[5] + (w4v * w2()) * t[6] + (w4v * w3()) * t[7]);
    assert(w4v * t[4] + (w4v * w1()) * t[5] + (w4v * w2()) * t[6] + (w4v * w3()) * t[7]
        == w4v * (t[4] + w1() * t[5] + w2() * t[6] + w3() * t[7])) by (nonlinear_arith);
}

/// Eight limbs stand for less than 2^512.
proof fn lemma_val8_below(t: [u64; 8])
    ensures
        0 <= val8(t) < wt(8),
{
    let w = w1();
    let a = t[0] as int;
    let b = t[1] as int;
    let c = t[2] as int;
    let d = t[3] as int;
    let e = t[4] as int;
    let f = t[5] as int;
    let g = t[6] as int;
    let h = t[7] as int;
    assert(val8(t) <= (w - 1) + wt(1) * (w - 1) + wt(2) * (w - 1) + wt(3) * (w - 1) + wt(4) * (w - 1) + wt(5) * (w
        - 1) + wt(6) * (w - 1) + wt(7) * (w - 1)) by (nonlinear_arith)
        requires
            val8(t) == a + wt(1) * b + wt(2) * c + wt(3) * d + wt(4) * e + wt(5) * f + wt(6) * g + wt(7) * h,
            0 <= a < w, 0 <= b < w, 0 <= c < w, 0 <= d < w, 0 <= e < w, 0 <= f < w, 0 <= g < w, 0 <= h < w,
            wt(1) > 0, wt(2) > 0, wt(3) > 0, wt(4) > 0, wt(5) > 0, wt(6) > 0, wt(7) > 0;
}

impl U256 {
    /// Montgomery reduction: for `t` below `n * 2^256` and the Montgomery constant of `n`,
    /// the value `r` below `n` with `r * 2^256 == t` modulo `n`. Other inputs give some
    /// value, without failing.
    pub fn mont_reduce(t: [u64; 8], modulus: &U256, n0_inv: u64) -> (r: U256)
        ensures
            is_mont_constant(*modulus, n0_inv) && val8(t) < modulus.value() * w4() ==> {
                &&& r.value() < modulus.value()
                &&& (r.value() * w4()) % modulus.value() == val8(t) % modulus.value()
            },
    {
        let ghost t_in = val8(t);
        let ghost nv = modulus.value();
        let ghost mc = is_mont_constant(*modulus, n0_inv);
        let ghost ok = mc && t_in < nv * w4();
        proof {
            lemma_value_range(*modulus);
            if mc && nv == 0 {
                assert(modulus.0[0] == 0);
                assert((modulus.0[0] * n0_inv) % w1() == 0);
            }
            assert(t_in >= 0);
            lemma_val8_below(t);
        }
        let mut t = t;
        let mut extra: u64 = 0;
        let ghost mut mm: int = 0;
        let mut i: usize = 0;
        while i < 4
            invariant
                i <= 4,
                0 <= nv < w4(),
                mc ==> 0 < nv,
                nv == modulus.value(),
                0 <= t_in < wt(8),
                ok == (mc && t_in < nv * w4()),
                mc == is_mont_constant(*modulus, n0_inv),
                0 <= mm < wt(i as int),
                val8(t) + extra * wt(8) == t_in + mm * nv,
                mc ==> forall|k: int| 0 <= k < i ==> t[k] == 0,
            decreases 4 - i,
        {
            let m = t[i].wrapping_mul(n0_inv);
            let ghost t0 = val8(t) + extra * wt(8);
            let mut carry: u64 = 0;
            let mut j: usize = 0;
            while j < 4
                invariant
                    i < 4,
                    j <= 4,
                    nv == modulus.value(),
                    mc == is_mont_constant(*modulus, n0_inv),
                    val8(t) + carry * wt((i + j) as int) + extra * wt(8) == t0 + m * pre4(modulus.0, j as int) * wt(i as int),
                    mc ==> forall|k: int| 0 <= k < i ==> t[k] == 0,
                    mc && j >= 1 ==> t[i as int] == 0,
                    j == 0 ==> carry == 0 && m == (t[i as int] * n0_inv) % w1(),
                decreases 4 - j,
            {
                let ghost before = t;
                let ghost c = carry;
                let k = i + j;
                let (lo, hi) = mac(t[k], m, modulus.0[j], carry);
                t[k] = lo;
                carry = hi;
                proof {
                    lemma_val8_update(before, t, k as int, lo);
                    lemma_wt_mul(i as int, j as int);
                    lemma_wt_next((i + j) as int);
                    lemma_pre4_step(modulus.0, j as int);
                    lemma_row_step(val8(t), val8(before), lo as int, before[k as int] as int, hi as int,
                        m as int, modulus.0[j as int] as int, c as int, extra * wt(8), t0,
                        pre4(modulus.0, j as int), pre4(modulus.0, (j + 1) as int), wt(i as int),
                        wt(j as int), wt((i + j) as int), wt((i + j + 1) as int), w1());
                    if j == 0 && mc {
                        lemma_row_clears(before[k as int], modulus.0[0], n0_inv, m);
                        lemma_div_mod_unique(before[k as int] + m * modulus.0[0], w1(), hi as int, lo as int);
                    }
                }
                j = j + 1;
            }
            proof {
                lemma_pre4_step(modulus.0, 3);
            }
            let mut k = i + 4;
            while carry > 0 && k < 8
                invariant
                    i < 4,
                    i + 4 <= k <= 8,
                    val8(t) + carry * wt(k as int) + extra * wt(8) == t0 + m * nv * wt(i as int),
                    mc ==> forall|q: int| 0 <= q <= i ==> t[q] == 0,
                decreases 8 - k,
            {
                let ghost before = t;
                let ghost c = carry;
                let (lo, hi) = add_limb(t[k], carry, 0);
                t[k] = lo;
                carry = hi;
                proof {
                    lemma_val8_update(before, t, k as int, lo);
                    lemma_wt_next(k as int);
                    let wk = wt(k as int);
                    let wn = wt((k + 1) as int);
                    let v = val8(t);
                    let vb = val8(before);
                    let bk = before[k as int] as int;
                    let w = w1();
                    assert(v + hi * wn == vb + c * wk) by (nonlinear_arith)
                        requires
                            v == vb + (lo - bk) * wk,
                            lo + w * hi == bk + c,
                            wn == w * wk;
                }
                k = k + 1;
            }
            proof {
                lemma_wt_next(i as int);
                lemma_wt_mul(i as int, 4 - i);
                let wi = wt(i as int);
                let wn = wt((i + 1) as int);
                let w = w1();
                let w4v = w4();
                let w8 = wt(8);
                let mm2 = mm + m * wi;
                assert(wt(4) == w4v);
                assert(w8 == w4v * w4v);
                assert(wi * wt(4 - i) == w4v);
                assert(wt(4 - i) >= 1);
                assert(m * wi <= (w - 1) * wi) by (nonlinear_arith)
                    requires m <= w - 1, wi > 0;
                assert((w - 1) * wi == w * wi - wi) by (nonlinear_arith);
                assert(mm2 < wn);
                lemma_wt_mul((i + 1) as int, 3 - i);
                assert(wn * wt(3 - i) == w4v);
                assert(wn <= w4v) by (nonlinear_arith)
                    requires wn * wt(3 - i) == w4v, wt(3 - i) >= 1, wn > 0;
                assert(t0 + m * nv * wi == t_in + mm2 * nv) by (nonlinear_arith)
                    requires t0 == t_in + mm * nv, mm2 == mm + m * wi;
                assert(mm2 * nv < w8) by (nonlinear_arith)
                    requires mm2 < w4v, 0 <= nv < w4v, mm2 >= 0, w8 == w4v * w4v;
                if carry > 0 {
                    assert(k == 8);
                    let v = val8(t);
                    assert(v >= 0);
                    assert(carry * w8 + extra * w8 < 2 * w8);
                    assert(carry + extra < 2) by (nonlinear_arith)
                        requires
                            carry * w8 + extra * w8 < 2 * w8,
                            w8 > 0,
                            carry >= 0,
                            extra >= 0;
                }
                assert(mm2 >= 0) by (nonlinear_arith)
                    requires mm2 == mm + m * wi, mm >= 0, m >= 0, wi > 0;
            }
            if carry > 0 {
                extra = extra + carry;
            }
            proof {
                mm = mm + m * wt(i as int);
            }
            i = i + 1;
        }
        let hi = U256([t[4], t[5], t[6], t[7]]);
        proof {
            if mc {
                lemma_high_half(t, hi);
            }
            lemma_value_range(hi);
        }
        let ghost u = hi.value() + extra * w4();
        proof {
            if ok {
            let w4v = w4();
            let w8 = wt(8);
            assert(w8 == w4v * w4v);
            assert(w4v * u == w4v * hi.value() + extra * w8) by (nonlinear_arith)
                requires u == hi.value() + extra * w4v, w8 == w4v * w4v;
            assert(w4v * u == t_in + mm * nv);
            assert(u < 2 * nv) by (nonlinear_arith)
                requires w4v * u == t_in + mm * nv, t_in < nv * w4v, mm < w4v, nv > 0, w4v > 0;
            }
        }
        let res = if extra > 0 || hi.ge(modulus) {
            let (d, _) = hi.overflowing_sub(*modulus);
            proof {
                if ok {
                    assert(u >= nv);
                    assert(d.value() == u - nv);
                }
            }
            d
        } else {
            hi
        };
        proof {
            if ok {
            let c: int = if extra > 0 || hi.value() >= nv { 1 } else { 0 };
            assert(res.value() == u - c * nv);
            lemma_fundamental_div_mod(t_in, nv);
            let q = t_in / nv;
            let rv = res.value();
            let w4v = w4();
            let rm = t_in % nv;
            assert(rv * w4v == (q + mm - c * w4v) * nv + rm) by (nonlinear_arith)
                requires
                    rv == u - c * nv,
                    w4v * u == t_in + mm * nv,
                    t_in == nv * q + rm;
            lemma_div_mod_unique(rv * w4v, nv, q + mm - c * w4v, rm);
            }
        }
        res
    }
}

} // verus!
