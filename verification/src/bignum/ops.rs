use vstd::prelude::*;
use vstd::arithmetic::div_mod::*;
use super::u256::{U256, w1, w2, w3, w4, lemma_value_range};
use super::lemmas::lemma_div_mod_unique;
use super::wide::{val8, wt};

verus! {

/// The 256-bit value whose number is `v` (taken modulo 2^256).
pub open spec fn from_value(v: int) -> U256 {
    U256([
        (v % w1()) as u64,
        ((v / w1()) % w1()) as u64,
        ((v / w2()) % w1()) as u64,
        ((v / w3()) % w1()) as u64,
    ])
}

/// A value is the one its number gives: the limbs are the number's base-2^64 digits.
pub proof fn lemma_from_value(x: U256)
    ensures
        from_value(x.value()) == x,
{
    let v = x.value();
    let (a, b, c, d) = (x.0[0] as int, x.0[1] as int, x.0[2] as int, x.0[3] as int);
    let w = w1();
    assert(w2() == w * w && w3() == w * w * w);
    let r1 = b + w * c + w2() * d;
    assert(v == r1 * w + a) by (nonlinear_arith)
        requires v == a + w * b + w2() * c + w3() * d, r1 == b + w * c + w2() * d,
            w2() == w * w, w3() == w * w * w;
    lemma_div_mod_unique(v, w, r1, a);
    let r2 = c + w * d;
    assert(r1 == r2 * w + b) by (nonlinear_arith)
        requires r1 == b + w * c + w2() * d, r2 == c + w * d, w2() == w * w;
    lemma_div_mod_unique(r1, w, r2, b);
    assert(r2 == d * w + c) by (nonlinear_arith)
        requires r2 == c + w * d;
    lemma_div_mod_unique(r2, w, d, c);
    lemma_div_mod_unique(d, w, 0, d);
    lemma_div_denominator(v, w, w);
    lemma_div_denominator(v, w * w, w);
    assert(v / w2() == r2);
    assert(v / w3() == d);
    assert(from_value(v).0 =~= x.0);
}

impl core::ops::Add for U256 {
    type Output = U256;

    /// The sum modulo 2^256.
    fn add(self, other: U256) -> (r: U256)
        ensures
            r.value() == (self.value() + other.value()) % w4(),
    {
        let (res, _) = self.overflowing_add(other);
        proof {
            lemma_from_value(res);
        }
        res
    }
}

impl vstd::std_specs::ops::AddSpecImpl for U256 {
    open spec fn obeys_add_spec() -> bool {
        true
    }

    open spec fn add_req(self, rhs: U256) -> bool {
        true
    }

    open spec fn add_spec(self, rhs: U256) -> U256 {
        from_value((self.value() + rhs.value()) % w4())
    }
}

impl core::ops::Sub for U256 {
    type Output = U256;

    /// The difference modulo 2^256.
    fn sub(self, other: U256) -> (r: U256)
        ensures
            r.value() == (self.value() - other.value() + w4()) % w4(),
    {
        let (res, _) = self.overflowing_sub(other);
        proof {
            lemma_from_value(res);
        }
        res
    }
}

impl vstd::std_specs::ops::SubSpecImpl for U256 {
    open spec fn obeys_sub_spec() -> bool {
        true
    }

    open spec fn sub_req(self, rhs: U256) -> bool {
        true
    }

    open spec fn sub_spec(self, rhs: U256) -> U256 {
        from_value((self.value() - rhs.value() + w4()) % w4())
    }
}

impl core::ops::Mul for U256 {
    type Output = U256;

    /// The product modulo 2^256 (the low half of the full product).
    fn mul(self, other: U256) -> (r: U256)
        ensures
            r.value() == (self.value() * other.value()) % w4(),
    {
        let wide = self.mul_wide(other);
        let lo = U256([wide[0], wide[1], wide[2], wide[3]]);
        let hi = U256([wide[4], wide[5], wide[6], wide[7]]);
        proof {
            lemma_value_range(lo);
            lemma_value_range(hi);
            let w4v = w4();
            assert(wt(4) == w4v);
            assert(wt(5) == w4v * w1());
            assert(wt(6) == w4v * w2());
            assert(wt(7) == w4v * w3());
            assert(val8(wide) == lo.value() + w4v * hi.value()) by (nonlinear_arith)
                requires
                    val8(wide) == wide[0] + wt(1) * wide[1] + wt(2) * wide[2] + wt(3) * wide[3]
                        + wt(4) * wide[4] + wt(5) * wide[5] + wt(6) * wide[6] + wt(7) * wide[7],
                    lo.value() == wide[0] + w1() * wide[1] + w2() * wide[2] + w3() * wide[3],
                    hi.value() == wide[4] + w1() * wide[5] + w2() * wide[6] + w3() * wide[7],
                    wt(1) == w1(), wt(2) == w2(), wt(3) == w3(), wt(4) == w4v,
                    wt(5) == w4v * w1(), wt(6) == w4v * w2(), wt(7) == w4v * w3();
            assert(val8(wide) == hi.value() * w4v + lo.value()) by (nonlinear_arith)
                requires val8(wide) == lo.value() + w4v * hi.value();
            lemma_div_mod_unique(self.value() * other.value(), w4v, hi.value(), lo.value());
            lemma_from_value(lo);
        }
        lo
    }
}

impl vstd::std_specs::ops::MulSpecImpl for U256 {
    open spec fn obeys_mul_spec() -> bool {
        true
    }

    open spec fn mul_req(self, rhs: U256) -> bool {
        true
    }

    open spec fn mul_spec(self, rhs: U256) -> U256 {
        from_value((self.value() * rhs.value()) % w4())
    }
}

impl core::ops::Div for U256 {
    type Output = U256;

    /// The quotient; the divisor must not be zero.
    fn div(self, other: U256) -> (r: U256)
        ensures
            r.value() == self.value() / other.value(),
    {
        let (q, _) = self.div_rem(other);
        proof {
            lemma_from_value(q);
        }
        q
    }
}

impl vstd::std_specs::ops::DivSpecImpl for U256 {
    open spec fn obeys_div_spec() -> bool {
        true
    }

    open spec fn div_req(self, rhs: U256) -> bool {
        rhs.value() != 0
    }

    open spec fn div_spec(self, rhs: U256) -> U256 {
        from_value(self.value() / rhs.value())
    }
}

impl core::ops::Rem for U256 {
    type Output = U256;

    /// The remainder; the divisor must not be zero.
    fn rem(self, other: U256) -> (r: U256)
        ensures
            r.value() == self.value() % other.value(),
    {
        let (_, r) = self.div_rem(other);
        proof {
            lemma_from_value(r);
        }
        r
    }
}

impl vstd::std_specs::ops::RemSpecImpl for U256 {
    open spec fn obeys_rem_spec() -> bool {
        true
    }

    open spec fn rem_req(self, rhs: U256) -> bool {
        rhs.value() != 0
    }

    open spec fn rem_spec(self, rhs: U256) -> U256 {
        from_value(self.value() % rhs.value())
    }
}

impl Default for U256 {
    fn default() -> (r: U256)
        ensures
            r.value() == 0,
    {
        U256::zero()
    }
}

/// Subtracting what was added gives back the value, and adding back what was subtracted
/// does too: addition and subtraction modulo 2^256 undo each other.
pub proof fn lemma_add_sub_inverse(a: U256, b: U256)
    ensures
        ((a.value() + b.value()) % w4() - b.value() + w4()) % w4() == a.value(),
        ((a.value() - b.value() + w4()) % w4() + b.value()) % w4() == a.value(),
{
    lemma_value_range(a);
    lemma_value_range(b);
    let (x, y, w) = (a.value(), b.value(), w4());
    if x + y >= w {
        lemma_div_mod_unique(x + y, w, 1, x + y - w);
        lemma_div_mod_unique(x + y - w - y + w, w, 0, x);
    } else {
        lemma_div_mod_unique(x + y, w, 0, x + y);
        lemma_div_mod_unique(x + y - y + w, w, 1, x);
    }
    if x - y + w >= w {
        lemma_div_mod_unique(x - y + w, w, 1, x - y);
        lemma_div_mod_unique(x - y + y, w, 0, x);
    } else {
        lemma_div_mod_unique(x - y + w, w, 0, x - y + w);
        lemma_div_mod_unique(x - y + w + y, w, 1, x);
    }
}

} // verus!
