use vstd::prelude::*;
use vstd::arithmetic::power::*;
use vstd::arithmetic::power2::*;
use vstd::arithmetic::div_mod::*;
use super::lemmas::lemma_div_mod_unique;

verus! {

/// `b^e` as the odd factor times the square's power: `b^e == (b or 1) * (b*b)^(e/2)`.
pub proof fn lemma_pow_halve(b: int, e: nat)
    ensures
        pow(b, e) == (if e % 2 == 1 { b } else { 1 }) * pow(b * b, e / 2),
{
    let h = e / 2;
    lemma_pow_multiplies(b, 2, h);
    lemma_square_is_pow2(b);
    assert(pow(b, 2 * h) == pow(b * b, h));
    if e % 2 == 1 {
        assert(e == 2 * h + 1);
        lemma_pow_adds(b, 2 * h, 1);
        lemma_pow1(b);
        assert(pow(b, e) == pow(b * b, h) * b);
        assert(pow(b * b, h) * b == b * pow(b * b, h)) by (nonlinear_arith);
    } else {
        assert(e == 2 * h);
    }
}

/// One round of square-and-multiply keeps `res * b^e` modulo `m`.
pub proof fn lemma_pow_round(res: int, b: int, e: nat, m: int)
    requires
        m > 0,
    ensures
        ((if e % 2 == 1 { (res * b) % m } else { res }) * pow((b * b) % m, e / 2)) % m
            == (res * pow(b, e)) % m,
{
    let h = e / 2;
    let p = pow(b * b, h);
    let pm = pow((b * b) % m, h);
    lemma_pow_mod_noop(b * b, h, m);
    assert(pm % m == p % m);
    lemma_pow_halve(b, e);
    let r2 = if e % 2 == 1 { (res * b) % m } else { res };
    let r3 = if e % 2 == 1 { res * b } else { res };
    assert(r2 % m == r3 % m) by {
        if e % 2 == 1 {
            lemma_mod_twice(res * b, m);
        }
    }
    lemma_mul_mod_noop_general(r2, pm, m);
    lemma_mul_mod_noop_general(r3, p, m);
    assert((r2 * pm) % m == ((r2 % m) * (pm % m)) % m);
    assert((r3 * p) % m == ((r3 % m) * (p % m)) % m);
    assert((r2 * pm) % m == (r3 * p) % m);
    if e % 2 == 1 {
        assert(r3 * p == res * (b * p)) by (nonlinear_arith)
            requires r3 == res * b;
    } else {
        assert(r3 * p == res * (1 * p)) by (nonlinear_arith)
            requires r3 == res;
    }
}

/// An odd modulus that divides `2 z` divides `z`.
proof fn lemma_cancel_two(z: int, n: int)
    requires
        n > 0,
        n % 2 == 1,
        (2 * z) % n == 0,
    ensures
        z % n == 0,
{
    lemma_fundamental_div_mod(2 * z, n);
    let q = (2 * z) / n;
    assert(2 * z == n * q);
    lemma_fundamental_div_mod(q, 2);
    let h = q / 2;
    let s = q % 2;
    assert(q == 2 * h + s);
    lemma_fundamental_div_mod(n, 2);
    let t = n / 2;
    assert(n == 2 * t + 1);
    if s == 1 {
        assert(2 * z == 2 * (n * h) + n) by (nonlinear_arith)
            requires 2 * z == n * q, q == 2 * h + 1;
        assert(2 * z == 2 * (n * h + t) + 1);
        assert(false);
    }
    assert(z == h * n) by (nonlinear_arith)
        requires 2 * z == n * q, q == 2 * h;
    lemma_div_mod_unique(z, n, h, 0);
}

/// An odd modulus that divides `z * 2^k` divides `z`.
pub proof fn lemma_cancel_pow2(z: int, n: int, k: nat)
    requires
        n > 0,
        n % 2 == 1,
        (z * pow2(k)) % n == 0,
    ensures
        z % n == 0,
    decreases k,
{
    if k == 0 {
        lemma_pow0(2);
        assert(pow2(0) == 1);
        assert(z * pow2(0) == z * 1);
    } else {
        lemma_pow2_unfold(k);
        let k1 = (k - 1) as nat;
        assert(z * pow2(k) == (2 * z) * pow2(k1)) by (nonlinear_arith)
            requires pow2(k) == 2 * pow2(k1);
        lemma_cancel_pow2(2 * z, n, k1);
        lemma_cancel_two(z, n);
    }
}

/// Multiplying by a power of two can be cancelled modulo an odd number.
pub proof fn lemma_cancel_pow2_mod(x: int, y: int, n: int, k: nat)
    requires
        n > 0,
        n % 2 == 1,
        (x * pow2(k)) % n == (y * pow2(k)) % n,
    ensures
        x % n == y % n,
{
    let p = pow2(k) as int;
    lemma_sub_mod_noop(x * p, y * p, n);
    assert((x * p - y * p) % n == 0) by {
        lemma_fundamental_div_mod(x * p, n);
        lemma_fundamental_div_mod(y * p, n);
        let qx = (x * p) / n;
        let qy = (y * p) / n;
        assert(x * p - y * p == (qx - qy) * n) by (nonlinear_arith)
            requires x * p == n * qx + (x * p) % n, y * p == n * qy + (y * p) % n,
                (x * p) % n == (y * p) % n;
        lemma_div_mod_unique(x * p - y * p, n, qx - qy, 0);
    }
    assert((x - y) * p == x * p - y * p) by (nonlinear_arith);
    lemma_cancel_pow2(x - y, n, k);
    lemma_fundamental_div_mod(x - y, n);
    lemma_fundamental_div_mod(x, n);
    lemma_fundamental_div_mod(y, n);
    let d = (x - y) / n;
    let qy = y / n;
    assert(x == (d + qy) * n + y % n) by (nonlinear_arith)
        requires x - y == n * d + 0, y == n * qy + y % n;
    lemma_div_mod_unique(x, n, d + qy, y % n);
}

/// `a^(d 2^j) % n`, the `j`-th value of a Miller-Rabin round.
pub open spec fn mr_term(n: int, a: int, d: nat, j: nat) -> int {
    pow(a, d * pow2(j)) % n
}

/// Each value of a round is the square of the one before, modulo `n`.
pub proof fn lemma_mr_term_square(n: int, a: int, d: nat, j: nat)
    requires
        n > 0,
    ensures
        mr_term(n, a, d, j + 1) == (mr_term(n, a, d, j) * mr_term(n, a, d, j)) % n,
        mr_term(n, a, d, 0) == pow(a, d) % n,
{
    let e = d * pow2(j);
    lemma_pow2_unfold(j + 1);
    assert(d * pow2(j + 1) == e * 2) by (nonlinear_arith)
        requires pow2(j + 1) == 2 * pow2(j), e == d * pow2(j);
    lemma_pow_multiplies(a, e, 2);
    let p = pow(a, e);
    lemma_square_is_pow2(p);
    lemma_mul_mod_noop(p, p, n);
    lemma_pow0(2);
    assert(pow2(0) == 1);
    assert(d * pow2(0) == d);
}

} // verus!
