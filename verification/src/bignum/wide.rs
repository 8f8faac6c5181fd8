use vstd::prelude::*;
use super::u256::{U256, w1, w2, w3, w4, val4, mul_u64, lemma_value_range};
use super::lemmas::lemma_div_mod_unique;
use vstd::arithmetic::div_mod::*;

verus! {

/// 2^(64 k), the weight of limb `k` (k up to 8).
pub open spec fn wt(k: int) -> int {
    if k == 0 {
        1
    } else if k == 1 {
        w1()
    } else if k == 2 {
        w2()
    } else if k == 3 {
        w3()
    } else if k == 4 {
        w4()
    } else if k == 5 {
        0x1_0000_0000_0000_0000_0000_0000_0000_0000_0000_0000_0000_0000_0000_0000_0000_0000_0000_0000_0000_0000int
    } else if k == 6 {
        0x1_0000_0000_0000_0000_0000_0000_0000_0000_0000_0000_0000_0000_0000_0000_0000_0000_0000_0000_0000_0000_0000_0000_0000_0000int
    } else if k == 7 {
        0x1_0000_0000_0000_0000_0000_0000_0000_0000_0000_0000_0000_0000_0000_0000_0000_0000_0000_0000_0000_0000_0000_0000_0000_0000_0000_0000_0000_0000int
    } else {
        0x1_0000_0000_0000_0000_0000_0000_0000_0000_0000_0000_0000_0000_0000_0000_0000_0000_0000_0000_0000_0000_0000_0000_0000_0000_0000_0000_0000_0000_0000_0000_0000_0000int
    }
}

/// The number that eight little-endian 64-bit limbs stand for.
pub open spec fn val8(t: [u64; 8]) -> int {
    t[0] + wt(1) * t[1] + wt(2) * t[2] + wt(3) * t[3] + wt(4) * t[4] + wt(5) * t[5] + wt(6) * t[6]
        + wt(7) * t[7]
}

/// The number the low `j` limbs stand for.
pub open spec fn pre4(l: [u64; 4], j: int) -> int {
    if j <= 0 {
        0
    } else if j == 1 {
        l[0] as int
    } else if j == 2 {
        l[0] + w1() * l[1]
    } else if j == 3 {
        l[0] + w1() * l[1] + w2() * l[2]
    } else {
        val4(l)
    }
}

pub proof fn lemma_wt_mul(i: int, j: int)
    requires
        0 <= i <= 4,
        0 <= j <= 4,
    ensures
        wt(i + j) == wt(i) * wt(j),
        wt(i) > 0,
{
    if i == 0 {
        if j == 0 {
            assert(wt(0) == wt(0) * wt(0));
        } else if j == 1 {
            assert(wt(1) == wt(0) * wt(1));
        } else if j == 2 {
            assert(wt(2) == wt(0) * wt(2));
        } else if j == 3 {
            assert(wt(3) == wt(0) * wt(3));
        } else if j == 4 {
            assert(wt(4) == wt(0) * wt(4));
        }
    } else if i == 1 {
        if j == 0 {
            assert(wt(1) == wt(1) * wt(0));
        } else if j == 1 {
            assert(wt(2) == wt(1) * wt(1));
        } else if j == 2 {
            assert(wt(3) == wt(1) * wt(2));
        } else if j == 3 {
            assert(wt(4) == wt(1) * wt(3));
        } else if j == 4 {
            assert(wt(5) == wt(1) * wt(4));
        }
    } else if i == 2 {
        if j == 0 {
            assert(wt(2) == wt(2) * wt(0));
        } else if j == 1 {
            assert(wt(3) == wt(2) * wt(1));
        } else if j == 2 {
            assert(wt(4) == wt(2) * wt(2));
        } else if j == 3 {
            assert(wt(5) == wt(2) * wt(3));
        } else if j == 4 {
            assert(wt(6) == wt(2) * wt(4));
        }
    } else if i == 3 {
        if j == 0 {
            assert(wt(3) == wt(3) * wt(0));
        } else if j == 1 {
            assert(wt(4) == wt(3) * wt(1));
        } else if j == 2 {
            assert(wt(5) == wt(3) * wt(2));
        } else if j == 3 {
            assert(wt(6) == wt(3) * wt(3));
        } else if j == 4 {
            assert(wt(7) == wt(3) * wt(4));
        }
    } else if i == 4 {
        if j == 0 {
            assert(wt(4) == wt(4) * wt(0));
        } else if j == 1 {
            assert(wt(5) == wt(4) * wt(1));
        } else if j == 2 {
            assert(wt(6) == wt(4) * wt(2));
        } else if j == 3 {
            assert(wt(7) == wt(4) * wt(3));
        } else if j == 4 {
            assert(wt(8) == wt(4) * wt(4));
        }
    }
}

pub proof fn lemma_wt_next(k: int)
    requires
        0 <= k <= 7,
    ensures
        wt(k + 1) == w1() * wt(k),
        wt(k) > 0,
{
    if k == 0 {
        assert(wt(1) == w1() * wt(0));
    } else if k == 1 {
        assert(wt(2) == w1() * wt(1));
    } else if k == 2 {
        assert(wt(3) == w1() * wt(2));
    } else if k == 3 {
        assert(wt(4) == w1() * wt(3));
    } else if k == 4 {
        assert(wt(5) == w1() * wt(4));
    } else if k == 5 {
        assert(wt(6) == w1() * wt(5));
    } else if k == 6 {
        assert(wt(7) == w1() * wt(6));
    } else if k == 7 {
        assert(wt(8) == w1() * wt(7));
    }
}

pub proof fn lemma_pre4_step(l: [u64; 4], j: int)
    requires
        0 <= j < 4,
    ensures
        pre4(l, j + 1) == pre4(l, j) + l[j] * wt(j),
        pre4(l, 4) == val4(l),
        0 <= pre4(l, j) < wt(j),
{
    if j == 1 {
        assert(l[1] * wt(1) == w1() * l[1]) by (nonlinear_arith);
    } else if j == 2 {
        assert(l[2] * wt(2) == w2() * l[2]) by (nonlinear_arith);
    } else if j == 3 {
        assert(l[3] * wt(3) == w3() * l[3]) by (nonlinear_arith);
    }
}

/// Setting limb `k` to `v` changes the value by `(v - t[k]) * 2^(64 k)`.
pub proof fn lemma_val8_update(t: [u64; 8], t2: [u64; 8], k: int, v: u64)
    requires
        0 <= k < 8,
        t2@ == t@.update(k, v),
    ensures
        val8(t2) == val8(t) + (v - t[k]) * wt(k),
{
    assert(forall|m: int| 0 <= m < 8 && m != k ==> t2[m] == t[m]);
    assert(t2[k] == v);
    if k == 0 {
    } else if k == 1 {
        assert(wt(1) * t2[1] - wt(1) * t[1] == (v - t[1]) * wt(1)) by (nonlinear_arith)
            requires t2[1] == v;
    } else if k == 2 {
        assert(wt(2) * t2[2] - wt(2) * t[2] == (v - t[2]) * wt(2)) by (nonlinear_arith)
            requires t2[2] == v;
    } else if k == 3 {
        assert(wt(3) * t2[3] - wt(3) * t[3] == (v - t[3]) * wt(3)) by (nonlinear_arith)
            requires t2[3] == v;
    } else if k == 4 {
        assert(wt(4) * t2[4] - wt(4) * t[4] == (v - t[4]) * wt(4)) by (nonlinear_arith)
            requires t2[4] == v;
    } else if k == 5 {
        assert(wt(5) * t2[5] - wt(5) * t[5] == (v - t[5]) * wt(5)) by (nonlinear_arith)
            requires t2[5] == v;
    } else if k == 6 {
        assert(wt(6) * t2[6] - wt(6) * t[6] == (v - t[6]) * wt(6)) by (nonlinear_arith)
            requires t2[6] == v;
    } else {
        assert(wt(7) * t2[7] - wt(7) * t[7] == (v - t[7]) * wt(7)) by (nonlinear_arith)
            requires t2[7] == v;
    }
}

/// One multiply-accumulate step of a row, in the weights of its limbs.
pub proof fn lemma_row_step(v: int, vb: int, lo: int, bk: int, hi: int, m: int, nj: int, c: int,
    x8: int, t0: int, pj: int, pn: int, wi: int, wj: int, wij: int, wn: int, w: int)
    requires
        v == vb + (lo - bk) * wij,
        lo + w * hi == bk + m * nj + c,
        vb + c * wij + x8 == t0 + m * pj * wi,
        wn == w * wij,
        wij == wi * wj,
        pn == pj + nj * wj,
    ensures
        v + hi * wn + x8 == t0 + m * pn * wi,
{
    assert(hi * wn == (w * hi) * wij) by (nonlinear_arith)
        requires wn == w * wij;
    assert(v + hi * wn == vb + (lo + w * hi - bk) * wij) by (nonlinear_arith)
        requires v == vb + (lo - bk) * wij, hi * wn == (w * hi) * wij;
    assert((lo + w * hi - bk) * wij == (m * nj + c) * wij) by (nonlinear_arith)
        requires lo + w * hi == bk + m * nj + c;
    assert((m * nj + c) * wij == m * nj * wij + c * wij) by (nonlinear_arith);
    assert(m * nj * wij == m * (nj * wj) * wi) by (nonlinear_arith)
        requires wij == wi * wj;
    assert(m * pn * wi == m * pj * wi + m * (nj * wj) * wi) by (nonlinear_arith)
        requires pn == pj + nj * wj;
}

/// `t + a * b + carry` as a low limb and a carry out.
pub fn mac(t: u64, a: u64, b: u64, carry: u64) -> (r: (u64, u64))
    ensures
        r.0 + w1() * r.1 == t + a * b + carry,
{
    let (prod, overflow) = mul_u64(a, b);
    let s1 = t.wrapping_add(prod);
    let o1: u64 = if s1 < t { 1 } else { 0 };
    let s2 = s1.wrapping_add(carry);
    let o2: u64 = if s2 < s1 { 1 } else { 0 };
    assert(t + a * b + carry <= 0xffff_ffff_ffff_ffffint + 0xffff_ffff_ffff_ffffint * 0xffff_ffff_ffff_ffffint + 0xffff_ffff_ffff_ffffint) by (nonlinear_arith)
        requires t <= 0xffff_ffff_ffff_ffffu64, a <= 0xffff_ffff_ffff_ffffu64, b <= 0xffff_ffff_ffff_ffffu64, carry <= 0xffff_ffff_ffff_ffffu64;
    assert(overflow + o1 + o2 <= 0xffff_ffff_ffff_ffffint);
    (s2, overflow + o1 + o2)
}

impl U256 {
    /// The full 512-bit product as eight little-endian limbs.
    pub fn mul_wide(self, other: U256) -> (r: [u64; 8])
        ensures
            val8(r) == self.value() * other.value(),
    {
        let mut res = [0u64; 8];
        assert(forall|m: int| 0 <= m < 8 ==> res[m] == 0);
        assert(val8(res) == 0);
        assert(pre4(self.0, 0) * other.value() == 0);
        let mut i: usize = 0;
        while i < 4
            invariant
                i <= 4,
                val8(res) == pre4(self.0, i as int) * other.value(),
                forall|m: int| i + 4 <= m < 8 ==> res[m] == 0,
            decreases 4 - i,
        {
            let ghost t0 = val8(res);
            let ai = self.0[i];
            let mut carry: u64 = 0;
            let mut j: usize = 0;
            while j < 4
                invariant
                    i < 4,
                    j <= 4,
                    ai == self.0[i as int],
                    val8(res) + carry * wt((i + j) as int) == t0 + ai * pre4(other.0, j as int) * wt(i as int),
                    forall|m: int| i + 4 <= m < 8 ==> res[m] == 0,
                    t0 == pre4(self.0, i as int) * other.value(),
                decreases 4 - j,
            {
                let ghost before = res;
                let ghost c = carry;
                let k = i + j;
                let (lo, hi) = mac(res[k], ai, other.0[j], carry);
                res[k] = lo;
                carry = hi;
                proof {
                    lemma_val8_update(before, res, k as int, lo);
                    lemma_wt_mul(i as int, j as int);
                    lemma_wt_next((i + j) as int);
                    lemma_pre4_step(other.0, j as int);
                    lemma_row_step(val8(res), val8(before), lo as int, before[k as int] as int, hi as int,
                        ai as int, other.0[j as int] as int, c as int, 0, t0,
                        pre4(other.0, j as int), pre4(other.0, (j + 1) as int), wt(i as int),
                        wt(j as int), wt((i + j) as int), wt((i + j + 1) as int), w1());
                }
                j = j + 1;
            }
            let ghost before = res;
            res[i + 4] = carry;
            proof {
                lemma_val8_update(before, res, (i + 4) as int, carry);
                lemma_pre4_step(self.0, i as int);
                lemma_pre4_step(other.0, 3);
                let wi = wt(i as int);
                let v = val8(res);
                let vb = val8(before);
                let w4i = wt((i + 4) as int);
                let ov = other.value();
                let p0 = pre4(self.0, i as int);
                let p1 = pre4(self.0, (i + 1) as int);
                let a = ai as int;
                assert(vb + carry * w4i == t0 + a * ov * wi);
                assert(v == p1 * ov) by (nonlinear_arith)
                    requires
                        v == vb + carry * w4i,
                        vb + carry * w4i == t0 + a * ov * wi,
                        t0 == p0 * ov,
                        p1 == p0 + a * wi;
            }
            i = i + 1;
        }
        proof {
            lemma_pre4_step(self.0, 3);
        }
        res
    }
}

} // verus!
