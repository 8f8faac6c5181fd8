use vstd::prelude::*;
use vstd::arithmetic::power::*;
use vstd::arithmetic::power2::*;
use vstd::arithmetic::div_mod::*;
use super::u256::{U256, w4, lemma_value_range};
use super::lemmas::{lemma_pow2_words, lemma_div_mod_unique};
use super::wide::val8;
use super::montgomery::is_mont_constant;
use super::residue::{lemma_pow_round, lemma_cancel_pow2_mod, mr_term, lemma_mr_term_square};

verus! {

/// `x * r` is the Montgomery form of `a`: `x == a * 2^256` modulo `n`.
pub open spec fn mont_form(x: int, a: int, n: int) -> bool {
    x == (a * w4()) % n
}

/// The product of two Montgomery forms, reduced, is the Montgomery form of the product.
proof fn lemma_mont_product(x: int, y: int, r: int, a: int, b: int, n: int)
    requires
        n > 0,
        n % 2 == 1,
        mont_form(x, a, n),
        mont_form(y, b, n),
        0 <= r < n,
        (r * w4()) % n == (x * y) % n,
    ensures
        mont_form(r, (a * b) % n, n),
{
    let rr = w4();
    lemma_mul_mod_noop_general(a * rr, b * rr, n);
    assert((x * y) % n == ((a * rr) * (b * rr)) % n);
    assert((a * rr) * (b * rr) == ((a * b) * rr) * rr) by (nonlinear_arith);
    lemma_pow2_words();
    lemma_cancel_pow2_mod(r, (a * b) * rr, n, 256);
    lemma_small_mod(r as nat, n as nat);
    lemma_mul_mod_noop_left(a * b, rr, n);
}

/// How many times 2 divides `m` (none for 0).
pub open spec fn two_valuation(m: nat) -> nat
    decreases m,
{
    if m > 0 && m % 2 == 0 {
        1 + two_valuation(m / 2)
    } else {
        0
    }
}

/// `m` with every factor 2 taken out.
pub open spec fn odd_factor(m: nat) -> nat {
    m / pow2(two_valuation(m))
}

/// Base `a` does not witness that the odd `n` is composite: with `n - 1 == d * 2^s`
/// and `d` odd, `a^d == 1` or `a^(d 2^j) == n - 1` for some `j < s`, modulo `n`.
pub open spec fn mr_base_passes(n: int, a: int) -> bool {
    let m = (n - 1) as nat;
    let s = two_valuation(m);
    let d = odd_factor(m);
    mr_term(n, a, d, 0) == 1 || exists|j: nat| j < s && #[trigger] mr_term(n, a, d, j) == n - 1
}

/// The Miller-Rabin verdict on `n` with the given bases; a base not below `n` is skipped.
pub open spec fn miller_rabin(n: int, bases: Seq<u64>) -> bool {
    if n < 2 {
        false
    } else if n == 2 || n == 3 {
        true
    } else if n % 2 == 0 {
        false
    } else {
        forall|k: int| 0 <= k < bases.len() ==> bases[k] >= n || #[trigger] mr_base_passes(n, bases[k] as int)
    }
}

impl U256 {
    /// `(x * 2^256) % n` by doubling 256 times modulo `n`.
    fn times_r(x: U256, modulus: &U256) -> (r: U256)
        requires
            x.value() < modulus.value(),
        ensures
            r.value() == (x.value() * w4()) % modulus.value(),
            r.value() < modulus.value(),
    {
        let ghost n = modulus.value();
        let mut r = x;
        let mut k: u32 = 0;
        proof {
            lemma_pow0(2);
            assert(x.value() * pow2(0) == x.value() * 1);
            lemma_small_mod(x.value() as nat, n as nat);
        }
        while k < 256
            invariant
                k <= 256,
                n == modulus.value(),
                x.value() < n,
                r.value() < n,
                r.value() == (x.value() * pow2(k as nat)) % n,
            decreases 256 - k,
        {
            let ghost old_r = r.value();
            r = U256::add_mod(r, r, *modulus);
            proof {
                let p = pow2(k as nat) as int;
                lemma_pow2_unfold((k + 1) as nat);
                lemma_add_mod_noop(x.value() * p, x.value() * p, n);
                lemma_mod_twice(x.value() * p, n);
                assert(x.value() * p + x.value() * p == x.value() * pow2((k + 1) as nat)) by (nonlinear_arith)
                    requires pow2((k + 1) as nat) == 2 * p;
            }
            k = k + 1;
        }
        proof {
            lemma_pow2_words();
        }
        r
    }

    /// `base^exp % modulus`.
    pub fn mod_pow(base: U256, exp: U256, modulus: U256) -> (r: U256)
        requires
            modulus.value() != 0,
        ensures
            r.value() == pow(base.value(), exp.value() as nat) % modulus.value(),
    {
        let ghost n = modulus.value();
        let ghost target = pow(base.value(), exp.value() as nat) % n;
        proof {
            lemma_value_range(base);
            lemma_value_range(modulus);
        }
        if modulus.equals(&U256::one()) {
            proof {
                lemma_div_mod_unique(pow(base.value(), exp.value() as nat), 1, pow(base.value(), exp.value() as nat), 0);
            }
            return U256::zero();
        }
        let mut exp = exp;
        if modulus.is_even() {
            let mut res = U256::one();
            let (_, b0) = base.div_rem(modulus);
            let mut b = b0;
            proof {
                lemma_pow_mod_noop(base.value(), exp.value() as nat, n);
                lemma_mul_mod_noop_general(1, pow(b.value(), exp.value() as nat), n);
            }
            while !exp.is_zero()
                invariant
                    n == modulus.value(),
                    n >= 2,
                    res.value() < n,
                    b.value() < n,
                    (res.value() * pow(b.value(), exp.value() as nat)) % n == target,
                decreases exp.value(),
            {
                let ghost e = exp.value() as nat;
                let ghost r0 = res.value();
                let ghost b1 = b.value();
                if !exp.is_even() {
                    res = U256::mul_mod(res, b, modulus);
                }
                b = U256::mul_mod(b, b, modulus);
                exp = exp.shr1();
                proof {
                    lemma_pow_round(r0, b1, e, n);
                }
            }
            proof {
                lemma_pow0(b.value());
                lemma_small_mod(res.value() as nat, n as nat);
            }
            return res;
        }
        let n0_inv = modulus.inv_word();
        proof {
            assert(modulus.0[0] % 2 == 1);
            assert(is_mont_constant(modulus, n0_inv));
            assert(n % 2 == 1);
        }
        let r = U256::times_r(U256::one(), &modulus);
        let r2 = U256::times_r(r, &modulus);
        let ghost rr = w4();
        proof {
            lemma_mul_mod_noop_left(rr, rr, n);
            assert(r2.value() == (rr * rr) % n);
            lemma_value_range(r2);
            assert(base.value() * r2.value() < n * rr) by (nonlinear_arith)
                requires base.value() < rr, r2.value() < n, base.value() >= 0;
        }
        let mut b_mont = U256::mont_reduce(base.mul_wide(r2), &modulus, n0_inv);
        let mut res_mont = r;
        let ghost mut a: int = 1;
        let ghost mut bb: int = base.value() % n;
        proof {
            // b_mont * R == base * R * R, so b_mont is the form of base.
            lemma_mul_mod_noop_right(base.value(), rr * rr, n);
            assert(base.value() * (rr * rr) == (base.value() * rr) * rr) by (nonlinear_arith);
            lemma_pow2_words();
            lemma_cancel_pow2_mod(b_mont.value(), base.value() * rr, n, 256);
            lemma_small_mod(b_mont.value() as nat, n as nat);
            lemma_mul_mod_noop_left(base.value(), rr, n);
            assert(mont_form(b_mont.value(), bb, n));
            assert(mont_form(res_mont.value(), a, n));
            lemma_pow_mod_noop(base.value(), exp.value() as nat, n);
            assert((a * pow(bb, exp.value() as nat)) % n == target);
        }
        while !exp.is_zero()
            invariant
                n == modulus.value(),
                n >= 3,
                n % 2 == 1,
                is_mont_constant(modulus, n0_inv),
                res_mont.value() < n,
                b_mont.value() < n,
                0 <= a < n,
                0 <= bb < n,
                mont_form(res_mont.value(), a, n),
                mont_form(b_mont.value(), bb, n),
                (a * pow(bb, exp.value() as nat)) % n == target,
            decreases exp.value(),
        {
            let ghost e = exp.value() as nat;
            let ghost a0 = a;
            let ghost b0 = bb;
            proof {
                lemma_value_range(res_mont);
                lemma_value_range(b_mont);
                assert(res_mont.value() * b_mont.value() < n * w4()) by (nonlinear_arith)
                    requires res_mont.value() < n, b_mont.value() < n, n < w4(), b_mont.value() >= 0;
                assert(b_mont.value() * b_mont.value() < n * w4()) by (nonlinear_arith)
                    requires b_mont.value() < n, n < w4(), b_mont.value() >= 0;
            }
            if !exp.is_even() {
                let prod = res_mont.mul_wide(b_mont);
                let ghost x = res_mont.value();
                res_mont = U256::mont_reduce(prod, &modulus, n0_inv);
                proof {
                    lemma_mont_product(x, b_mont.value(), res_mont.value(), a, bb, n);
                    a = (a * bb) % n;
                }
            }
            let sq = b_mont.mul_wide(b_mont);
            let ghost y = b_mont.value();
            b_mont = U256::mont_reduce(sq, &modulus, n0_inv);
            proof {
                lemma_mont_product(y, y, b_mont.value(), bb, bb, n);
                bb = (bb * bb) % n;
            }
            exp = exp.shr1();
            proof {
                lemma_pow_round(a0, b0, e, n);
            }
        }
        proof {
            lemma_value_range(res_mont);
            assert(res_mont.value() * 1 < n * w4()) by (nonlinear_arith)
                requires res_mont.value() < n, n < w4(), res_mont.value() >= 0;
        }
        let one = U256::one();
        let last = res_mont.mul_wide(one);
        let out = U256::mont_reduce(last, &modulus, n0_inv);
        proof {
            assert(val8(last) == res_mont.value());
            lemma_small_mod(res_mont.value() as nat, n as nat);
            assert((out.value() * w4()) % n == (a * w4()) % n);
            lemma_pow0(bb);
            lemma_small_mod(a as nat, n as nat);
            assert(a == target);
            lemma_mul_mod_noop_left(a, w4(), n);
            lemma_pow2_words();
            lemma_cancel_pow2_mod(out.value(), a, n, 256);
            lemma_small_mod(out.value() as nat, n as nat);
        }
        out
    }

    /// Miller-Rabin primality test with the given bases: whether the number is
    /// probably prime.
    pub fn is_probably_prime(&self, bases: &[u64]) -> (r: bool)
        ensures
            r == miller_rabin(self.value(), bases@),
    {
        let ghost nv = self.value();
        proof {
            lemma_value_range(*self);
        }
        if self.is_zero() || self.equals(&U256::one()) {
            return false;
        }
        if self.equals(&U256::from_u64(2)) || self.equals(&U256::from_u64(3)) {
            return true;
        }
        if self.is_even() {
            return false;
        }
        let (n_minus_1, _) = self.overflowing_sub(U256::one());
        let ghost m = (nv - 1) as nat;
        let mut s: u32 = 0;
        let mut d = n_minus_1;
        proof {
            lemma_pow0(2);
            assert(pow2(0) == 1);
            assert(d.value() * pow2(0) == d.value() * 1);
            lemma_pow2_words();
        }
        while d.is_even()
            invariant
                nv == self.value(),
                nv < w4(),
                m == nv - 1,
                d.value() > 0,
                d.value() * pow2(s as nat) == m,
                two_valuation(m) == s + two_valuation(d.value() as nat),
                s < 256,
            decreases d.value(),
        {
            let ghost dv = d.value();
            d = d.shr1();
            proof {
                lemma_pow2_unfold((s + 1) as nat);
                assert(d.value() * pow2((s + 1) as nat) == dv * pow2(s as nat)) by (nonlinear_arith)
                    requires d.value() == dv / 2, dv % 2 == 0, pow2((s + 1) as nat) == 2 * pow2(s as nat);
                assert(d.value() > 0);
                lemma_pow2_pos(s as nat);
                if s + 1 >= 256 {
                    lemma_pow2_words();
                    if s + 1 > 256 {
                        lemma_pow2_strictly_increases(256, (s + 1) as nat);
                    }
                    assert(d.value() * pow2((s + 1) as nat) >= pow2((s + 1) as nat)) by (nonlinear_arith)
                        requires d.value() >= 1, pow2((s + 1) as nat) > 0;
                    assert(false);
                }
            }
            s = s + 1;
        }
        proof {
            assert(two_valuation(d.value() as nat) == 0);
            lemma_pow2_pos(s as nat);
            lemma_div_mod_unique(m as int, pow2(s as nat) as int, d.value(), 0);
            assert(odd_factor(m) == d.value());
            assert(s >= 1);
        }
        let ghost dv = d.value() as nat;
        let mut idx: usize = 0;
        while idx < bases.len()
            invariant
                nv == self.value(),
                nv >= 5,
                nv % 2 == 1,
                m == nv - 1,
                n_minus_1.value() == m,
                two_valuation(m) == s,
                odd_factor(m) == dv,
                d.value() == dv,
                s >= 1,
                idx <= bases.len(),
                forall|k: int| 0 <= k < idx ==> bases@[k] >= nv || #[trigger] mr_base_passes(nv, bases@[k] as int),
            decreases bases.len() - idx,
        {
            let a = U256::from_u64(bases[idx]);
            let ghost av = bases@[idx as int] as int;
            if a.ge(self) {
                idx = idx + 1;
                continue;
            }
            let mut x = U256::mod_pow(a, d, *self);
            proof {
                lemma_mr_term_square(nv, av, dv, 0);
            }
            if x.equals(&U256::one()) || x.equals(&n_minus_1) {
                proof {
                    if x.value() != 1 {
                        assert(mr_term(nv, av, dv, 0) == nv - 1);
                    }
                }
                idx = idx + 1;
                continue;
            }
            let mut composite = true;
            let mut i: u32 = 1;
            while composite && i < s
                invariant
                    nv == self.value(),
                    nv >= 5,
                    n_minus_1.value() == nv - 1,
                    1 <= i <= s,
                    x.value() < nv,
                    x.value() == mr_term(nv, av, dv, (i - 1) as nat),
                    composite ==> forall|j: nat| j < i ==> #[trigger] mr_term(nv, av, dv, j) != nv - 1,
                    !composite ==> exists|j: nat| j < s && #[trigger] mr_term(nv, av, dv, j) == nv - 1,
                decreases s - i,
            {
                let ghost prev = x.value();
                x = U256::mul_mod(x, x, *self);
                proof {
                    lemma_mr_term_square(nv, av, dv, (i - 1) as nat);
                    assert(x.value() == mr_term(nv, av, dv, i as nat));
                }
                if x.equals(&n_minus_1) {
                    composite = false;
                }
                i = i + 1;
            }
            if composite {
                proof {
                    assert(forall|j: nat| j < s ==> #[trigger] mr_term(nv, av, dv, j) != nv - 1);
                    assert(!mr_base_passes(nv, av));
                }
                return false;
            }
            idx = idx + 1;
        }
        true
    }
}

} // verus!
