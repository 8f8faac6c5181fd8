use vstd::prelude::*;
use vstd::arithmetic::power2::*;
use vstd::bits::*;
use vstd::std_specs::bits::{u64_leading_zeros, axiom_u64_leading_zeros};
use super::u256::{U256, w1, w2, w3, w4, half, lemma_value_range};
use super::lemmas::lemma_pow2_words;
use super::wide::{wt, pre4, lemma_pre4_step};
use crate::math::{floor_log2, lemma_floor_log2_unique};

verus! {

/// The value of a hexadecimal digit (either case), if `c` is one.
pub open spec fn hex_digit_value(c: char) -> Option<nat> {
    if '0' <= c && c <= '9' {
        Some((c as nat - '0' as nat) as nat)
    } else if 'a' <= c && c <= 'f' {
        Some((c as nat - 'a' as nat + 10) as nat)
    } else if 'A' <= c && c <= 'F' {
        Some((c as nat - 'A' as nat + 10) as nat)
    } else {
        None
    }
}

/// `s` with every leading "0x" taken off.
pub open spec fn strip_hex_prefix(s: Seq<char>) -> Seq<char>
    decreases s.len(),
{
    if s.len() >= 2 && s[0] == '0' && s[1] == 'x' {
        strip_hex_prefix(s.subrange(2, s.len() as int))
    } else {
        s
    }
}

/// Every character of `s` is a hexadecimal digit.
pub open spec fn all_hex(s: Seq<char>) -> bool {
    forall|i: int| 0 <= i < s.len() ==> (#[trigger] hex_digit_value(s[i])) is Some
}

/// The number the hexadecimal digits `s` stand for, most significant first.
pub open spec fn hex_value(s: Seq<char>) -> nat
    decreases s.len(),
{
    if s.len() == 0 {
        0
    } else {
        hex_value(s.drop_last()) * 16 + hex_digit_value(s.last()).unwrap()
    }
}

fn hex_digit(c: char) -> (r: Option<u64>)
    ensures
        r matches Some(d) ==> hex_digit_value(c) == Some(d as nat) && d < 16,
        r is None ==> hex_digit_value(c) is None,
{
    if '0' <= c && c <= '9' {
        Some((c as u64) - ('0' as u64))
    } else if 'a' <= c && c <= 'f' {
        Some((c as u64) - ('a' as u64) + 10)
    } else if 'A' <= c && c <= 'F' {
        Some((c as u64) - ('A' as u64) + 10)
    } else {
        None
    }
}

proof fn lemma_hex_value_bound(s: Seq<char>)
    requires
        all_hex(s),
    ensures
        hex_value(s) < pow2(4 * s.len()),
    decreases s.len(),
{
    if s.len() == 0 {
        lemma2_to64();
    } else {
        let t = s.drop_last();
        assert(all_hex(t)) by {
            assert forall|i: int| 0 <= i < t.len() implies (#[trigger] hex_digit_value(t[i])) is Some by {
                assert(t[i] == s[i]);
            }
        }
        lemma_hex_value_bound(t);
        assert(hex_digit_value(s[s.len() - 1]) is Some);
        lemma_pow2_adds(4 * t.len(), 4);
        lemma2_to64();
        assert(4 * s.len() == 4 * t.len() + 4);
    }
}

impl U256 {
    /// Sixteen times a value below 2^252.
    fn times16(self) -> (r: U256)
        requires
            self.value() < pow2(252),
        ensures
            r.value() == 16 * self.value(),
    {
        proof {
            lemma_pow2_words();
            lemma_pow2_strictly_increases(252, 255);
            lemma_pow2_unfold(253);
            lemma_pow2_unfold(254);
            lemma_pow2_unfold(255);
            lemma_pow2_unfold(256);
            lemma2_to64();
            assert(pow2(253) == 2 * pow2(252));
            assert(pow2(254) == 2 * pow2(253));
            assert(pow2(255) == 2 * pow2(254));
            assert(pow2(256) == 2 * pow2(255));
        }
        let a = self.shl1();
        assert(a.value() == 2 * self.value());
        let b = a.shl1();
        assert(b.value() == 4 * self.value());
        let c = b.shl1();
        assert(c.value() == 8 * self.value());
        let d = c.shl1();
        d
    }

    /// Parses hexadecimal digits, after any number of leading "0x": `None` when nothing or
    /// more than 64 digits remain, or when any character is not a hexadecimal digit.
    pub fn from_hex_str(hex: &str) -> (r: Option<U256>)
        ensures
            ({
                let t = strip_hex_prefix(hex@);
                &&& (r is None) == (t.len() == 0 || t.len() > 64 || !all_hex(t))
                &&& (r matches Some(v) ==> v.value() == hex_value(t))
            }),
    {
        let n = hex.unicode_len();
        let mut start: usize = 0;
        proof {
            assert(hex@.subrange(0, n as int) =~= hex@);
        }
        while n - start >= 2 && hex.get_char(start) == '0' && hex.get_char(start + 1) == 'x'
            invariant
                start <= n,
                n == hex@.len(),
                strip_hex_prefix(hex@) == strip_hex_prefix(hex@.subrange(start as int, n as int)),
            decreases n - start,
        {
            proof {
                let s = hex@.subrange(start as int, n as int);
                assert(s.subrange(2, s.len() as int) =~= hex@.subrange(start + 2, n as int));
            }
            start = start + 2;
        }
        let ghost t = hex@.subrange(start as int, n as int);
        proof {
            assert(!(t.len() >= 2 && t[0] == '0' && t[1] == 'x'));
            assert(strip_hex_prefix(hex@) == t);
        }
        let len = n - start;
        if len == 0 || len > 64 {
            return None;
        }
        let mut acc = U256::zero();
        let mut k = start;
        while k < n
            invariant
                start <= k <= n,
                n == hex@.len(),
                n - start <= 64,
                t == hex@.subrange(start as int, n as int),
                strip_hex_prefix(hex@) == t,
                all_hex(hex@.subrange(start as int, k as int)),
                acc.value() == hex_value(hex@.subrange(start as int, k as int)),
            decreases n - k,
        {
            let c = hex.get_char(k);
            let d = match hex_digit(c) {
                Some(d) => d,
                None => {
                    proof {
                        assert(t[k - start] == c);
                        assert(hex_digit_value(t[k - start]) is None);
                    }
                    return None;
                },
            };
            let ghost p = hex@.subrange(start as int, k as int);
            let ghost p2 = hex@.subrange(start as int, k + 1);
            proof {
                lemma_hex_value_bound(p);
                assert(p.len() <= 63);
                if 4 * p.len() < 252 {
                    lemma_pow2_strictly_increases(4 * p.len(), 252);
                }
                assert(p2.drop_last() =~= p);
                assert(p2.last() == c);
                assert(all_hex(p2)) by {
                    assert forall|i: int| 0 <= i < p2.len() implies (#[trigger] hex_digit_value(p2[i])) is Some by {
                        if i < p.len() {
                            assert(p2[i] == p[i]);
                        }
                    }
                }
            }
            let shifted = acc.times16();
            let (sum, _) = shifted.overflowing_add(U256::from_u64(d));
            proof {
                lemma_value_range(sum);
                lemma_pow2_words();
                lemma_pow2_adds(252, 4);
                lemma2_to64();
                assert(shifted.value() + d < w4());
            }
            acc = sum;
            k = k + 1;
        }
        proof {
            assert(hex@.subrange(start as int, k as int) =~= t);
        }
        Some(acc)
    }

    /// The number of leading zero bits: 256 for zero, else 255 minus the position of the
    /// top set bit.
    pub fn leading_zeros(&self) -> (r: u32)
        ensures
            self.value() == 0 ==> r == 256,
            self.value() > 0 ==> r == 255 - floor_log2(self.value() as nat),
    {
        let mut zeros: u32 = 0;
        let mut i: usize = 4;
        while i > 0
            invariant
                i <= 4,
                zeros == 64 * (4 - i),
                forall|j: int| i <= j < 4 ==> self.0[j] == 0,
            decreases i,
        {
            i = i - 1;
            if self.0[i] == 0 {
                zeros = zeros + 64;
            } else {
                let x = self.0[i];
                let lz = x.leading_zeros();
                proof {
                    axiom_u64_leading_zeros(x);
                    let msb: u64 = (63 - lz) as u64;
                    assert((x >> msb) & 1u64 != 0u64);
                    assert(msb + 1 == 64 || x >> ((msb + 1) as u64) == 0u64);
                    assert(x >= (1u64 << msb)) by (bit_vector)
                        requires msb < 64, (x >> msb) & 1u64 != 0u64;
                    assert(msb + 1 == 64 || x < (1u64 << ((msb + 1) as u64))) by (bit_vector)
                        requires msb < 64, msb + 1 == 64 || x >> ((msb + 1) as u64) == 0u64;
                    lemma_u64_pow2_no_overflow(msb as nat);
                    lemma_u64_shl_is_mul(1u64, msb);
                    if msb < 63 {
                        lemma_u64_pow2_no_overflow((msb + 1) as nat);
                        lemma_u64_shl_is_mul(1u64, (msb + 1) as u64);
                    } else {
                        lemma2_to64_rest();
                    }
                    assert(pow2(msb as nat) <= x < pow2((msb + 1) as nat));
                    // the number is this limb times its weight plus the limbs below
                    let l = self.0;
                    let ii = i as int;
                    lemma_pre4_step(l, ii);
                    if ii <= 2 {
                        lemma_pre4_step(l, ii + 1);
                    }
                    if ii <= 1 {
                        lemma_pre4_step(l, ii + 2);
                    }
                    if ii == 0 {
                        lemma_pre4_step(l, 3);
                    }
                    lemma_pre4_step(l, 3);
                    assert(self.value() == pre4(l, ii) + x * wt(ii));
                    lemma_pow2_words();
                    lemma2_to64();
                    let e = (64 * ii) as nat;
                    assert(wt(ii) == pow2(e));
                    lemma_pow2_adds(e, msb as nat);
                    lemma_pow2_adds(e, (msb + 1) as nat);
                    assert(e + (msb + 1) as nat == (e + msb) as nat + 1);
                    let w = wt(ii);
                    let lo = pre4(l, ii);
                    assert(pow2(msb as nat) * w <= x * w) by (nonlinear_arith)
                        requires pow2(msb as nat) <= x, w > 0;
                    assert(x * w + w <= pow2((msb + 1) as nat) * w) by (nonlinear_arith)
                        requires x < pow2((msb + 1) as nat), w > 0;
                    let em = (e + msb) as nat;
                    assert(pow2(em) <= self.value() < pow2(em + 1));
                    lemma_floor_log2_unique(self.value() as nat, em);
                }
                return zeros + lz;
            }
        }
        proof {
            assert(self.value() == 0);
        }
        zeros
    }
}

} // verus!
