use vstd::prelude::*;
use vstd::arithmetic::power::*;
use vstd::arithmetic::div_mod::*;
use vstd::arithmetic::power2::*;
use super::prime::{two_valuation, odd_factor, mr_base_passes, miller_rabin};
use super::residue::{mr_term, lemma_mr_term_square};

verus! {

/// `n` is prime: at least 2, and no number strictly between 1 and `n` divides it.
pub open spec fn is_prime(n: int) -> bool {
    n >= 2 && forall|d: int| 1 < d < n ==> #[trigger] (n % d) != 0
}

/// Euclid's lemma: a prime that divides `a * b`, and not `a`, divides `b`.
pub proof fn lemma_prime_divides_factor(p: int, a: int, b: int)
    requires
        is_prime(p),
        0 < a < p,
        (a * b) % p == 0,
    ensures
        b % p == 0,
    decreases a,
{
    if a == 1 {
        assert(a * b == b) by (nonlinear_arith)
            requires a == 1;
    } else {
        let q = p / a;
        let r = p % a;
        lemma_fundamental_div_mod(p, a);
        assert(r != 0);
        let k = (a * b) / p;
        lemma_fundamental_div_mod(a * b, p);
        assert(r * b == p * (b - q * k)) by (nonlinear_arith)
            requires p == a * q + r, a * b == p * k + 0;
        lemma_mod_multiples_basic(b - q * k, p);
        assert((b - q * k) * p == p * (b - q * k)) by (nonlinear_arith);
        lemma_prime_divides_factor(p, r, b);
    }
}

/// Modulo a prime, 1 has no square roots but 1 and -1.
pub proof fn lemma_square_root_of_one(p: int, x: int)
    requires
        is_prime(p),
        0 <= x < p,
        (x * x) % p == 1,
    ensures
        x == 1 || x == p - 1,
{
    lemma_small_mod(1, p as nat);
    lemma_mod_equivalence(x * x, 1, p);
    if x == 0 {
        assert(x * x == 0);
        lemma_small_mod(0, p as nat);
    } else if x != p - 1 {
        assert((x + 1) * (x - 1) == x * x - 1) by (nonlinear_arith);
        lemma_prime_divides_factor(p, x + 1, x - 1);
        lemma_small_mod((x - 1) as nat, p as nat);
    }
}

/// The binomial coefficient, by Pascal's rule.
pub open spec fn binom(n: nat, k: nat) -> nat
    decreases n,
{
    if k == 0 {
        1
    } else if n == 0 {
        0
    } else {
        binom((n - 1) as nat, (k - 1) as nat) + binom((n - 1) as nat, k)
    }
}

/// The first `k` terms of the expansion of `(x + 1)^n`: the sum of `binom(n, i) * x^i`
/// for `i < k`.
pub open spec fn binom_sum(x: int, n: nat, k: nat) -> int
    decreases k,
{
    if k == 0 {
        0
    } else {
        binom_sum(x, n, (k - 1) as nat) + binom(n, (k - 1) as nat) * pow(x, (k - 1) as nat)
    }
}

proof fn lemma_binom_above(n: nat, k: nat)
    requires
        k > n,
    ensures
        binom(n, k) == 0,
    decreases n,
{
    if n > 0 {
        lemma_binom_above((n - 1) as nat, (k - 1) as nat);
        lemma_binom_above((n - 1) as nat, k);
    }
}

proof fn lemma_binom_diagonal(n: nat)
    ensures
        binom(n, n) == 1,
    decreases n,
{
    if n > 0 {
        lemma_binom_diagonal((n - 1) as nat);
        lemma_binom_above((n - 1) as nat, n);
    }
}

/// The absorption identity `k * binom(n, k) == n * binom(n - 1, k - 1)`.
proof fn lemma_binom_absorb(n: nat, k: nat)
    requires
        n >= 1,
        k >= 1,
    ensures
        k * binom(n, k) == n * binom((n - 1) as nat, (k - 1) as nat),
    decreases n,
{
    let n1 = (n - 1) as nat;
    let k1 = (k - 1) as nat;
    if n == 1 {
        lemma_binom_above(0, k);
        if k > 1 {
            lemma_binom_above(0, k1);
            assert(binom(n, k) == 0);
            assert(binom(n1, k1) == 0);
        } else {
            assert(binom(n, k) == 1);
            assert(binom(n1, k1) == 1);
        }
        assert(k * binom(n, k) == n * binom(n1, k1)) by (nonlinear_arith)
            requires
                n == 1,
                (k == 1 && binom(n, k) == 1 && binom(n1, k1) == 1) || (binom(n, k) == 0 && binom(n1, k1) == 0);
    } else {
        let n2 = (n - 2) as nat;
        lemma_binom_absorb(n1, k);
        if k == 1 {
            assert(binom(n1, 1) == n1) by (nonlinear_arith)
                requires 1 * binom(n1, 1) == n1 * binom(n2, 0), binom(n2, 0) == 1;
            assert(binom(n, 1) == binom(n1, 0) + binom(n1, 1));
            assert(k * binom(n, k) == n * binom(n1, k1)) by (nonlinear_arith)
                requires k == 1, k1 == 0, binom(n, 1) == 1 + n1, n == n1 + 1, binom(n1, 0) == 1;
        } else {
            lemma_binom_absorb(n1, k1);
            let k2 = (k - 2) as nat;
            assert(binom(n, k) == binom(n1, k1) + binom(n1, k));
            assert(binom(n1, k1) == binom(n2, k2) + binom(n2, k1));
            assert(k1 * binom(n1, k1) == n1 * binom(n2, k2));
            assert(k * binom(n1, k) == n1 * binom(n2, k1));
            assert(k * binom(n, k) == n * binom(n1, k1)) by (nonlinear_arith)
                requires
                    binom(n, k) == binom(n1, k1) + binom(n1, k),
                    binom(n1, k1) == binom(n2, k2) + binom(n2, k1),
                    k1 * binom(n1, k1) == n1 * binom(n2, k2),
                    k * binom(n1, k) == n1 * binom(n2, k1),
                    k == k1 + 1,
                    n == n1 + 1;
        }
    }
}

/// A prime divides every binomial coefficient of its row but the two ends.
proof fn lemma_prime_divides_binom(p: int, k: nat)
    requires
        is_prime(p),
        0 < k < p,
    ensures
        (binom(p as nat, k) as int) % p == 0,
{
    let pn = p as nat;
    lemma_binom_absorb(pn, k);
    let c = binom((pn - 1) as nat, (k - 1) as nat);
    lemma_mod_multiples_basic(c as int, p);
    assert(c * p == p * c) by (nonlinear_arith);
    lemma_prime_divides_factor(p, k as int, binom(pn, k) as int);
}

/// One step of Pascal's rule on the partial sums.
proof fn lemma_binom_sum_step(x: int, n: nat, k: nat)
    ensures
        binom_sum(x, n + 1, k + 1) == x * binom_sum(x, n, k) + binom_sum(x, n, k + 1),
    decreases k,
{
    reveal(pow);
    if k == 0 {
        assert(binom_sum(x, n + 1, 0) == 0);
        assert(binom_sum(x, n, 0) == 0);
        assert(binom_sum(x, n + 1, 1) == binom(n + 1, 0) * pow(x, 0));
        assert(binom_sum(x, n, 1) == binom(n, 0) * pow(x, 0));
        assert(x * 0 == 0) by (nonlinear_arith);
    } else {
        let k1 = (k - 1) as nat;
        lemma_binom_sum_step(x, n, k1);
        let a = binom_sum(x, n, k1);
        let b = binom_sum(x, n, k);
        let c1 = binom(n, k1);
        let c2 = binom(n, k);
        let pk1 = pow(x, k1);
        assert(binom_sum(x, n + 1, k + 1) == binom_sum(x, n + 1, k) + binom(n + 1, k) * pow(x, k));
        assert(binom(n + 1, k) == c1 + c2);
        assert(pow(x, k) == x * pk1);
        assert(b == a + c1 * pk1);
        assert(binom_sum(x, n, k + 1) == b + c2 * pow(x, k));
        assert(binom_sum(x, n + 1, k + 1) == x * b + binom_sum(x, n, k + 1)) by (nonlinear_arith)
            requires
                binom_sum(x, n + 1, k + 1) == binom_sum(x, n + 1, k) + binom(n + 1, k) * pow(x, k),
                binom_sum(x, n + 1, k) == x * a + b,
                binom(n + 1, k) == c1 + c2,
                pow(x, k) == x * pk1,
                b == a + c1 * pk1,
                binom_sum(x, n, k + 1) == b + c2 * pow(x, k);
    }
}

/// The binomial theorem for `(x + 1)^n`.
pub proof fn lemma_binomial(x: int, n: nat)
    ensures
        pow(x + 1, n) == binom_sum(x, n, n + 1),
    decreases n,
{
    reveal(pow);
    if n == 0 {
        assert(binom_sum(x, 0, 0) == 0);
        assert(binom_sum(x, 0, 1) == binom(0, 0) * pow(x, 0));
    } else {
        let n1 = (n - 1) as nat;
        lemma_binomial(x, n1);
        lemma_binom_sum_step(x, n1, n);
        lemma_binom_above(n1, n);
        assert(binom_sum(x, n1, n + 1) == binom_sum(x, n1, n) + binom(n1, n) * pow(x, n));
        assert(pow(x + 1, n) == (x + 1) * pow(x + 1, n1));
        assert((x + 1) * binom_sum(x, n1, n) == x * binom_sum(x, n1, n) + binom_sum(x, n1, n)) by (nonlinear_arith);
    }
}

/// Modulo a prime `p`, the expansion of `(x + 1)^p` cut before its last term is 1.
proof fn lemma_binom_sum_mod_prime(x: int, p: int, k: nat)
    requires
        is_prime(p),
        1 <= k <= p,
    ensures
        binom_sum(x, p as nat, k) % p == 1,
    decreases k,
{
    lemma_small_mod(1, p as nat);
    reveal(pow);
    let pn = p as nat;
    if k == 1 {
        assert(binom_sum(x, pn, 0) == 0);
        assert(binom_sum(x, pn, 1) == binom(pn, 0) * pow(x, 0));
    } else {
        let k1 = (k - 1) as nat;
        lemma_binom_sum_mod_prime(x, p, k1);
        lemma_prime_divides_binom(p, k1);
        let c = binom(pn, k1) as int;
        let t = c * pow(x, k1);
        lemma_mul_mod_noop_left(c, pow(x, k1), p);
        assert((0 * pow(x, k1)) % p == 0) by {
            assert(0 * pow(x, k1) == 0) by (nonlinear_arith);
            lemma_small_mod(0, p as nat);
        }
        lemma_add_mod_noop(binom_sum(x, pn, k1), t, p);
    }
}

/// Modulo a prime `p`, `(x + 1)^p == x^p + 1`.
proof fn lemma_freshman(x: int, p: int)
    requires
        is_prime(p),
    ensures
        pow(x + 1, p as nat) % p == (pow(x, p as nat) + 1) % p,
{
    let pn = p as nat;
    lemma_binomial(x, pn);
    lemma_binom_diagonal(pn);
    lemma_binom_sum_mod_prime(x, p, pn);
    assert(binom_sum(x, pn, pn + 1) == binom_sum(x, pn, pn) + binom(pn, pn) * pow(x, pn));
    lemma_add_mod_noop(binom_sum(x, pn, pn), pow(x, pn), p);
    lemma_add_mod_noop(1, pow(x, pn), p);
    lemma_small_mod(1, pn);
}

/// Fermat's little theorem, first form: `a^p == a` modulo a prime `p`.
proof fn lemma_fermat_power(a: nat, p: int)
    requires
        is_prime(p),
    ensures
        pow(a as int, p as nat) % p == (a as int) % p,
    decreases a,
{
    if a == 0 {
        lemma0_pow(p as nat);
    } else {
        let a1 = (a - 1) as nat;
        lemma_fermat_power(a1, p);
        lemma_freshman(a1 as int, p);
        lemma_add_mod_noop(pow(a1 as int, p as nat), 1, p);
        lemma_add_mod_noop(a1 as int, 1, p);
    }
}

/// Fermat's little theorem: `a^(p - 1) == 1` modulo a prime `p` that does not divide `a`.
pub proof fn lemma_fermat(a: int, p: int)
    requires
        is_prime(p),
        0 < a < p,
    ensures
        pow(a, (p - 1) as nat) % p == 1,
{
    let e = (p - 1) as nat;
    lemma_fermat_power(a as nat, p);
    lemma_pow_adds(a, 1, e);
    lemma_pow1(a);
    assert(pow(a, p as nat) == a * pow(a, e));
    lemma_mod_equivalence(a * pow(a, e), a, p);
    assert(a * pow(a, e) - a == a * (pow(a, e) - 1)) by (nonlinear_arith);
    lemma_prime_divides_factor(p, a, pow(a, e) - 1);
    lemma_mod_equivalence(pow(a, e), 1, p);
    lemma_small_mod(1, p as nat);
}

/// `m` is its odd factor times a power of two.
proof fn lemma_odd_factor(m: nat)
    ensures
        odd_factor(m) * pow2(two_valuation(m)) == m,
    decreases m,
{
    lemma_pow2_pos(two_valuation(m));
    if m > 0 && m % 2 == 0 {
        let h = m / 2;
        let t = two_valuation(h);
        lemma_odd_factor(h);
        lemma_pow2_unfold(t + 1);
        lemma_pow2_pos(t);
        assert(two_valuation(m) == t + 1);
        lemma_div_denominator(m as int, 2, pow2(t) as int);
        assert(odd_factor(m) == h / pow2(t));
        assert(odd_factor(m) * pow2(t + 1) == m) by (nonlinear_arith)
            requires
                odd_factor(m) == h / pow2(t),
                (h / pow2(t)) * pow2(t) == h,
                pow2(t + 1) == 2 * pow2(t),
                m == 2 * h;
    } else {
        lemma2_to64();
        assert(two_valuation(m) == 0);
        assert(odd_factor(m) == m / 1);
        assert(m / 1 == m);
        assert(odd_factor(m) * pow2(0) == m);
    }
}

/// Going down the squarings from a 1: the first value is 1, or some value before is -1.
proof fn lemma_mr_descend(n: int, a: int, d: nat, j: nat, s: nat)
    requires
        is_prime(n),
        j <= s,
        mr_term(n, a, d, j) == 1,
    ensures
        mr_term(n, a, d, 0) == 1 || exists|i: nat| i < s && #[trigger] mr_term(n, a, d, i) == n - 1,
    decreases j,
{
    if j > 0 {
        let j1 = (j - 1) as nat;
        lemma_mr_term_square(n, a, d, j1);
        let x = mr_term(n, a, d, j1);
        lemma_mod_bound(pow(a, d * pow2(j1)), n);
        lemma_square_root_of_one(n, x);
        if x == 1 {
            lemma_mr_descend(n, a, d, j1, s);
        } else {
            assert(mr_term(n, a, d, j1) == n - 1);
        }
    }
}

/// A prime passes the round of every base between 1 and itself.
proof fn lemma_prime_passes_base(n: int, a: int)
    requires
        is_prime(n),
        n % 2 == 1,
        1 <= a < n,
    ensures
        mr_base_passes(n, a),
{
    let m = (n - 1) as nat;
    let s = two_valuation(m);
    let d = odd_factor(m);
    lemma_odd_factor(m);
    lemma_fermat(a, n);
    assert(mr_term(n, a, d, s) == pow(a, m) % n);
    lemma_mr_descend(n, a, d, s, s);
}

/// The test never rejects a prime, whatever bases it is given, as long as none is 0.
pub proof fn lemma_miller_rabin_accepts_primes(n: int, bases: Seq<u64>)
    requires
        is_prime(n),
        forall|k: int| 0 <= k < bases.len() ==> bases[k] != 0,
    ensures
        miller_rabin(n, bases),
{
    if n != 2 && n != 3 {
        assert(n % 2 != 0);
        assert forall|k: int| 0 <= k < bases.len() implies bases[k] >= n || #[trigger] mr_base_passes(n, bases[k] as int) by {
            if bases[k] < n {
                lemma_prime_passes_base(n, bases[k] as int);
            }
        }
    }
}

} // verus!
