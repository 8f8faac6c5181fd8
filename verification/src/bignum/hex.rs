use vstd::prelude::*;
use vstd::arithmetic::power2::*;
use vstd::arithmetic::div_mod::*;
use vstd::bits::lemma_u64_shr_is_div;
use super::u256::{U256, w1, w2, w3, w4, lemma_value_range};
use super::lemmas::{lemma_pow2_words, lemma_div_mod_unique};
use super::ops::{from_value, lemma_from_value};
use super::parse::{hex_value, hex_digit_value};

verus! {

/// The number formed by the first `i` of the 64 hexadecimal digits of `v`, most
/// significant first.
pub open spec fn hex_top(v: int, i: int) -> int {
    v / (pow2((4 * (64 - i)) as nat) as int)
}

/// A lowercase hexadecimal digit.
pub open spec fn is_lower_hex(c: char) -> bool {
    ('0' <= c && c <= '9') || ('a' <= c && c <= 'f')
}

/// The lowercase digit for `d` below 16.
fn hex_char(d: u64) -> (c: char)
    requires
        d < 16,
    ensures
        hex_digit_value(c) == Some(d as nat),
        is_lower_hex(c),
{
    let digits: [char; 16] = ['0', '1', '2', '3', '4', '5', '6', '7', '8', '9', 'a', 'b', 'c', 'd', 'e', 'f'];
    let c = digits[d as usize];
    proof {
        assert(digits@[d as int] == c);
        if d == 0 { assert(c == '0'); } else if d == 1 { assert(c == '1'); } else if d == 2 { assert(c == '2'); }
        else if d == 3 { assert(c == '3'); } else if d == 4 { assert(c == '4'); } else if d == 5 { assert(c == '5'); }
        else if d == 6 { assert(c == '6'); } else if d == 7 { assert(c == '7'); } else if d == 8 { assert(c == '8'); }
        else if d == 9 { assert(c == '9'); } else if d == 10 { assert(c == 'a'); } else if d == 11 { assert(c == 'b'); }
        else if d == 12 { assert(c == 'c'); } else if d == 13 { assert(c == 'd'); } else if d == 14 { assert(c == 'e'); }
        else { assert(c == 'f'); }
    }
    c
}

/// Limb `k` of a value is its number divided by 2^(64 k), modulo 2^64.
proof fn lemma_limb(x: U256, k: int)
    requires
        0 <= k < 4,
    ensures
        x.0[k] == (x.value() / (pow2((64 * k) as nat) as int)) % w1(),
{
    lemma_from_value(x);
    lemma_pow2_words();
    lemma2_to64();
    assert(from_value(x.value()).0[k] == x.0[k]);
    if k == 0 {
        assert(x.value() / 1 == x.value());
    }
}

/// Digit `i` (from the top) of the 64 hexadecimal digits of a value, read from its limb.
proof fn lemma_nibble(x: U256, i: int, k: int, s: u64, d: u64)
    requires
        0 <= i < 64,
        k == 3 - i / 16,
        s == 4 * (15 - i % 16),
        d == (x.0[k] >> s) & 15u64,
    ensures
        d == hex_top(x.value(), i + 1) % 16,
        hex_top(x.value(), i + 1) == 16 * hex_top(x.value(), i) + d,
{
    let v = x.value();
    lemma_value_range(x);
    let limb = x.0[k];
    lemma_limb(x, k);
    let pk = pow2((64 * k) as nat) as int;
    let ps = pow2(s as nat) as int;
    lemma_pow2_pos((64 * k) as nat);
    lemma_pow2_pos(s as nat);
    // (limb >> s) & 15 is (limb / 2^s) % 16
    lemma_u64_shr_is_div(limb, s);
    let sh = limb >> s;
    assert(sh & 15u64 == sh % 16) by (bit_vector);
    // limb / 2^s is (v / 2^(64k) / 2^s) % 2^(64 - s)
    let xv = v / pk;
    lemma2_to64();
    lemma_pow2_words();
    lemma_pow2_adds(s as nat, (64 - s) as nat);
    let pr = pow2((64 - s) as nat) as int;
    lemma_pow2_pos((64 - s) as nat);
    assert(ps * pr == w1());
    lemma_mod_breakdown(xv, ps, pr);
    let q = (xv / ps) % pr;
    lemma_fundamental_div_mod(xv, ps);
    assert(limb == ps * q + xv % ps);
    lemma_div_mod_unique(limb as int, ps, q, xv % ps);
    assert(limb as int / ps == q);
    // ... modulo 16 is (v / 2^(64k + s)) % 16
    lemma_pow2_adds(4, (60 - s) as nat);
    assert(pow2(4) == 16);
    lemma_pow2_pos((60 - s) as nat);
    assert(pr == 16 * pow2((60 - s) as nat));
    lemma_mod_mod(xv / ps, 16, pow2((60 - s) as nat) as int);
    assert(d == (xv / ps) % 16);
    lemma_div_denominator(v, pk, ps);
    lemma_pow2_adds((64 * k) as nat, s as nat);
    let e = (4 * (63 - i)) as nat;
    assert(64 * k + s == e);
    assert(pk * ps == pow2(e));
    assert(hex_top(v, i + 1) == v / (pow2(e) as int));
    // and the digits so far are the same number divided by 16
    let t = v / (pow2(e) as int);
    lemma_pow2_pos(e);
    lemma_pow2_adds(e, 4);
    assert(pow2((4 * (64 - i)) as nat) == pow2(e) * 16);
    lemma_div_denominator(v, pow2(e) as int, 16);
    assert(hex_top(v, i) == t / 16);
    lemma_fundamental_div_mod(t, 16);
}

impl U256 {
    /// The lowercase hexadecimal digits of the number, without leading zeros ("0" for
    /// zero).
    pub fn hex_digits(&self) -> (r: Vec<char>)
        ensures
            hex_value(r@) == self.value(),
            r@.len() >= 1,
            r@.len() == 1 || r@[0] != '0',
            forall|j: int| 0 <= j < r@.len() ==> is_lower_hex(#[trigger] r@[j]),
    {
        let ghost v = self.value();
        proof {
            lemma_value_range(*self);
            lemma_pow2_words();
            assert((4 * (64 - 0int)) as nat == 256);
            lemma_div_mod_unique(v, w4(), 0, v);
            assert(hex_top(v, 0) == 0);
        }
        let mut r: Vec<char> = Vec::new();
        let mut i: usize = 0;
        while i < 64
            invariant
                i <= 64,
                v == self.value(),
                (r@.len() == 0) == (hex_top(v, i as int) == 0),
                r@.len() > 0 ==> r@[0] != '0',
                hex_value(r@) == hex_top(v, i as int),
                forall|j: int| 0 <= j < r@.len() ==> is_lower_hex(#[trigger] r@[j]),
            decreases 64 - i,
        {
            let k = 3 - i / 16;
            let s = (4 * (15 - i % 16)) as u64;
            let limb = self.0[k];
            let d = (limb >> s) & 15;
            proof {
                lemma_nibble(*self, i as int, k as int, s, d);
                assert(d < 16) by (bit_vector)
                    requires d == (limb >> s) & 15u64;
            }
            if r.len() > 0 || d != 0 {
                let ghost before = r@;
                let c = hex_char(d);
                r.push(c);
                proof {
                    assert(r@.drop_last() =~= before);
                    assert(r@.last() == c);
                    if before.len() == 0 {
                        assert(r@[0] == c);
                        assert(c != '0');
                    } else {
                        assert(r@[0] == before[0]);
                    }
                }
            }
            i = i + 1;
        }
        proof {
            lemma2_to64();
            assert((4 * (64 - 64int)) as nat == 0);
            assert(pow2(0) == 1);
            assert(v / 1 == v);
            assert(hex_top(v, 64) == v);
        }
        if r.len() == 0 {
            r.push('0');
            proof {
                assert(r@.drop_last() =~= Seq::<char>::empty());
            }
        }
        r
    }
}

} // verus!
