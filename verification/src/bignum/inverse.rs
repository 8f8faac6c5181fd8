use vstd::prelude::*;
use vstd::arithmetic::div_mod::*;
use super::u256::{U256, w1};
use super::lemmas::lemma_div_mod_unique;

verus! {

/// One Newton step toward the inverse of `n` modulo 2^64: `x * (2 - n * x)`.
pub open spec fn newton(n: int, x: int) -> int {
    (x * (2 - n * x)) % w1()
}

/// Four steps from `n` itself, the start the word inverse is built from.
pub open spec fn newton4(n: int) -> int {
    newton(n, newton(n, newton(n, newton(n, n))))
}

/// Five steps.
pub open spec fn newton5(n: int) -> int {
    newton(n, newton4(n))
}

/// `x` is an inverse of `n` modulo `m`: `n * x - 1` is a multiple of `m`.
pub open spec fn inverse_mod(n: int, x: int, m: int) -> bool {
    (n * x - 1) % m == 0
}

/// A Newton step squares the modulus of the inverse, up to 2^64.
proof fn lemma_newton(n: int, x: int, m: int, m2: int)
    requires
        m > 0,
        m2 > 0,
        inverse_mod(n, x, m),
        (m * m) % m2 == 0,
        w1() % m2 == 0,
    ensures
        inverse_mod(n, newton(n, x), m2),
        0 <= newton(n, x) < w1(),
{
    let e = n * x - 1;
    let t = e / m;
    lemma_fundamental_div_mod(e, m);
    assert(e == m * t);
    let y = x * (2 - n * x);
    let q = y / w1();
    lemma_fundamental_div_mod(y, w1());
    let nx2 = newton(n, x);
    assert(nx2 == y - w1() * q);
    let a = (m * m) / m2;
    lemma_fundamental_div_mod(m * m, m2);
    let b = w1() / m2;
    lemma_fundamental_div_mod(w1(), m2);
    assert(n * y - 1 == -(e * e)) by (nonlinear_arith)
        requires y == x * (2 - n * x), e == n * x - 1;
    assert(e * e == m2 * (a * t * t)) by (nonlinear_arith)
        requires e == m * t, m * m == m2 * a;
    assert(n * (w1() * q) == m2 * (n * b * q)) by (nonlinear_arith)
        requires w1() == m2 * b;
    assert(n * nx2 == n * y - n * (w1() * q)) by (nonlinear_arith)
        requires nx2 == y - w1() * q;
    assert(n * nx2 - 1 == m2 * (-(a * t * t) - n * b * q)) by (nonlinear_arith)
        requires
            n * nx2 == n * y - n * (w1() * q),
            n * y - 1 == -(e * e),
            e * e == m2 * (a * t * t),
            n * (w1() * q) == m2 * (n * b * q);
    lemma_div_mod_unique(n * nx2 - 1, m2, -(a * t * t) - n * b * q, 0);
}

proof fn lemma_odd_square(n: int)
    requires
        n % 2 == 1,
    ensures
        inverse_mod(n, n, 8),
{
    let j = n / 2;
    lemma_fundamental_div_mod(n, 2);
    assert(n == 2 * j + 1);
    let u = j / 2;
    lemma_fundamental_div_mod(j, 2);
    if j % 2 == 0 {
        assert(n * n - 1 == 8 * (u * (2 * u + 1))) by (nonlinear_arith)
            requires n == 2 * j + 1, j == 2 * u;
        lemma_div_mod_unique(n * n - 1, 8, u * (2 * u + 1), 0);
    } else {
        assert(n * n - 1 == 8 * ((2 * u + 1) * (u + 1))) by (nonlinear_arith)
            requires n == 2 * j + 1, j == 2 * u + 1;
        lemma_div_mod_unique(n * n - 1, 8, (2 * u + 1) * (u + 1), 0);
    }
}

/// Five Newton steps from an odd `n` give its inverse modulo 2^64.
pub proof fn lemma_newton5_inverse(n: int)
    requires
        n % 2 == 1,
    ensures
        inverse_mod(n, newton5(n), w1()),
        0 <= newton5(n) < w1(),
{
    lemma_odd_square(n);
    let x1 = newton(n, n);
    lemma_newton(n, n, 8, 64);
    let x2 = newton(n, x1);
    lemma_newton(n, x1, 64, 4096);
    let x3 = newton(n, x2);
    lemma_newton(n, x2, 4096, 16777216);
    let x4 = newton(n, x3);
    lemma_newton(n, x3, 16777216, 0x1_0000_0000_0000int);
    lemma_newton(n, x4, 0x1_0000_0000_0000int, w1());
}

/// `x * (2 - n * x)` in wrapping 64-bit arithmetic.
fn newton_step(n: u64, x: u64) -> (r: u64)
    ensures
        r == newton(n as int, x as int),
{
    let t = n.wrapping_mul(x);
    let u = 2u64.wrapping_sub(t);
    let r = x.wrapping_mul(u);
    proof {
        let w = w1();
        assert(t == (n * x) % w);
        assert(u == (2 - t) % w);
        lemma_sub_mod_noop_right(2, n * x, w);
        lemma_mul_mod_noop_right(x as int, 2 - n * x, w);
        assert(x * ((2 - (n * x) % w) % w) % w == x * (2 - n * x) % w) by {
            lemma_mul_mod_noop_right(x as int, 2 - (n * x) % w, w);
        }
    }
    r
}

impl U256 {
    /// The word `r` with `n0 * r == -1` modulo 2^64 for the low limb `n0`
    /// (the Montgomery constant), by Newton's iteration from `n0` itself.
    pub fn inv_word(&self) -> (r: u64)
        ensures
            r == (w1() - newton5(self.0[0] as int)) % w1(),
            self.0[0] % 2 == 1 ==> (self.0[0] * r) % w1() == w1() - 1,
    {
        let n = self.0[0];
        let mut inv = n;
        inv = newton_step(n, inv);
        inv = newton_step(n, inv);
        inv = newton_step(n, inv);
        inv = newton_step(n, inv);
        inv = newton_step(n, inv);
        let r = 0u64.wrapping_sub(inv);
        proof {
            if n % 2 == 1 {
                lemma_newton5_inverse(n as int);
                let x = inv as int;
                let w = w1();
                if x == 0 {
                    assert((n * x - 1) % w == w - 1);
                } else {
                    assert(r == w - x);
                    assert(n * r == w * n - (n * x - 1) - 1) by (nonlinear_arith)
                        requires r == w - x;
                    lemma_fundamental_div_mod(n * x - 1, w);
                    let k = (n * x - 1) / w;
                    assert(n * r == w * (n - k - 1) + (w - 1)) by (nonlinear_arith)
                        requires n * r == w * n - (n * x - 1) - 1, n * x - 1 == w * k + 0;
                    lemma_div_mod_unique(n * r, w, n - k - 1, w - 1);
                }
            }
        }
        r
    }
}

} // verus!
