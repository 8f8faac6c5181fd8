use vstd::prelude::*;
use vstd::arithmetic::power2::*;
use vstd::arithmetic::div_mod::*;
use super::lemmas::{p2, lemma_pow2_words, lemma_div_mod_unique, lemma_top_bit_step};
use super::u256::{U256, w4, lemma_value_range};

verus! {

impl U256 {
    /// `(a + b) % n` for `a` and `b` below `n`, exact past 2^256.
    pub(crate) fn add_mod(a: U256, b: U256, n: U256) -> (r: U256)
        requires
            a.value() < n.value(),
            b.value() < n.value(),
        ensures
            r.value() == (a.value() + b.value()) % n.value(),
            r.value() < n.value(),
    {
        proof {
            lemma_value_range(a);
            lemma_value_range(b);
            lemma_value_range(n);
        }
        let (s, carry) = a.overflowing_add(b);
        if carry || s.ge(&n) {
            let (t, _) = s.overflowing_sub(n);
            proof {
                lemma_div_mod_unique(a.value() + b.value(), n.value(), 1, a.value() + b.value() - n.value());
            }
            t
        } else {
            proof {
                lemma_div_mod_unique(a.value() + b.value(), n.value(), 0, a.value() + b.value());
            }
            s
        }
    }

    /// `(a * b) % n` for `a` and `b` below `n`, by doubling and adding over
    /// the bits of `a` from the top.
    pub(crate) fn mul_mod(a: U256, b: U256, n: U256) -> (r: U256)
        requires
            a.value() < n.value(),
            b.value() < n.value(),
        ensures
            r.value() == (a.value() * b.value()) % n.value(),
            r.value() < n.value(),
    {
        proof {
            lemma_value_range(a);
            lemma_value_range(b);
            lemma_value_range(n);
        }
        let ghost m = n.value();
        let ghost bv = b.value();
        let mut res = U256::zero();
        let mut s = a;
        let ghost mut prefix: int = 0;
        let ghost mut low: int = a.value();
        let mut k: u32 = 0;
        proof {
            lemma_pow2_words();
            lemma2_to64();
            assert(p2(0) == 1);
            lemma_div_mod_unique(0, m, 0, 0);
        }
        while k < 256
            invariant
                k <= 256,
                m == n.value(),
                bv == b.value(),
                m > 0,
                bv < m,
                a.value() == prefix * p2(256 - k) + low,
                0 <= low < p2(256 - k),
                s.value() == low * p2(k as int),
                res.value() == (prefix * bv) % m,
                res.value() < m,
            decreases 256 - k,
        {
            let top = s.top_bit();
            proof {
                lemma_top_bit_step(a.value(), prefix, low, s.value(), k as nat);
            }
            s = s.shl1();
            let ghost old_res = res.value();
            res = U256::add_mod(res, res, n);
            proof {
                // (2 * ((prefix * bv) % m)) % m == (2 * prefix * bv) % m
                lemma_add_mod_noop(prefix * bv, prefix * bv, m);
                lemma_small_mod(old_res as nat, m as nat);
                assert(res.value() == (2 * prefix * bv) % m) by (nonlinear_arith)
                    requires res.value() == (old_res + old_res) % m,
                        old_res == (prefix * bv) % m,
                        ((old_res % m) + (old_res % m)) % m == (prefix * bv + prefix * bv) % m,
                        old_res % m == old_res;
            }
            if top == 1 {
                let ghost r2 = res.value();
                res = U256::add_mod(res, b, n);
                proof {
                    lemma_add_mod_noop_right(bv, 2 * prefix * bv, m);
                    assert(res.value() == ((2 * prefix + 1) * bv) % m) by (nonlinear_arith)
                        requires res.value() == (r2 + bv) % m, r2 == (2 * prefix * bv) % m,
                            (bv + (2 * prefix * bv) % m) % m == (bv + 2 * prefix * bv) % m;
                }
            } else {
                proof {
                    assert(top == 0);
                    assert((2 * prefix + top) * bv == 2 * prefix * bv) by (nonlinear_arith)
                        requires top == 0;
                }
            }
            proof {
                prefix = 2 * prefix + top;
                low = low % p2(255 - k);
            }
            k = k + 1;
        }
        proof {
            lemma2_to64();
            assert(p2(256 - k) == 1);
            assert(low == 0);
            assert(a.value() == prefix);
        }
        res
    }
}

} // verus!
