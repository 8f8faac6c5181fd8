use vstd::prelude::*;
use vstd::arithmetic::power2::*;
use vstd::bits::*;
use vstd::arithmetic::div_mod::{lemma_small_mod, lemma_div_denominator};
use crate::bignum::lemmas::lemma_div_mod_unique;

verus! {

/// The LEB128 bytes of `v`: seven bits at a time from the low end, with the top bit
/// set on every byte but the last.
pub open spec fn leb128_bytes(v: nat) -> Seq<u8>
    decreases v,
{
    if v < 128 {
        seq![v as u8]
    } else {
        seq![(v % 128 + 128) as u8] + leb128_bytes(v / 128)
    }
}

/// The index of the first byte at or after `i` that ends a number (top bit clear),
/// looking at no byte at or past `max`.
pub open spec fn leb128_end(s: Seq<u8>, i: nat, max: nat) -> Option<nat>
    decreases max - i,
{
    if i >= s.len() || i >= max {
        None
    } else if s[i as int] < 128 {
        Some(i)
    } else {
        leb128_end(s, i + 1, max)
    }
}

/// The number the low seven bits of the first `k` bytes stand for, low bits first.
pub open spec fn leb128_value(s: Seq<u8>, k: nat) -> nat
    decreases k,
{
    if k == 0 {
        0
    } else {
        leb128_value(s, (k - 1) as nat) + (s[k - 1] % 128) as nat * pow2((7 * (k - 1)) as nat)
    }
}

/// What decoding reads: within the first `max` bytes the number up to and including the
/// first byte with the top bit clear, kept to its low `bits` bits, and the bytes read;
/// nothing where no such byte comes in time.
pub open spec fn leb128_decode_spec(s: Seq<u8>, max: nat, bits: nat) -> Option<(nat, nat)> {
    match leb128_end(s, 0, max) {
        Some(k) => Some((leb128_value(s, k + 1) % pow2(bits), k + 1)),
        None => None,
    }
}

proof fn lemma_pow2_7()
    ensures
        pow2(7) == 128,
        pow2(28) == 0x1000_0000,
        pow2(32) == 0x1_0000_0000,
        pow2(56) == 0x100_0000_0000_0000,
        pow2(63) == 0x8000_0000_0000_0000,
        pow2(64) == 0x1_0000_0000_0000_0000,
{
    lemma2_to64();
    lemma2_to64_rest();
}

/// One more group of seven bits multiplies the weight by 128.
proof fn lemma_pow2_7_step(k: nat)
    ensures
        pow2(7 * (k + 1)) == 128 * pow2(7 * k),
{
    lemma_pow2_adds(7, 7 * k);
    lemma_pow2_7();
    assert(7 * (k + 1) == 7 + 7 * k);
}

/// The value of `k` bytes is below 2^(7k).
pub proof fn lemma_leb128_value_bound(s: Seq<u8>, k: nat)
    ensures
        leb128_value(s, k) < pow2(7 * k),
    decreases k,
{
    if k == 0 {
        lemma2_to64();
    } else {
        let k1 = (k - 1) as nat;
        lemma_leb128_value_bound(s, k1);
        lemma_pow2_7_step(k1);
        let w = pow2(7 * k1);
        let b = (s[k1 as int] % 128) as nat;
        assert(b * w <= 127 * w) by (nonlinear_arith)
            requires b <= 127;
    }
}

/// The value of `m + 1` bytes is the first byte's bits plus 128 times the value of the rest.
proof fn lemma_leb128_value_shift(s: Seq<u8>, m: nat)
    requires
        m < s.len(),
    ensures
        leb128_value(s, m + 1) == (s[0] % 128) as nat + 128 * leb128_value(s.drop_first(), m),
    decreases m,
{
    lemma2_to64();
    if m == 0 {
        assert(pow2(0) == 1);
        assert(leb128_value(s, 0) == 0);
        assert(leb128_value(s.drop_first(), 0) == 0);
        assert(leb128_value(s, 1) == (s[0] % 128) as nat * pow2(0));
    } else {
        let m1 = (m - 1) as nat;
        lemma_leb128_value_shift(s, m1);
        lemma_pow2_7_step(m1);
        let t = s.drop_first();
        assert(s[m as int] == t[m1 as int]);
        let b = (t[m1 as int] % 128) as nat;
        assert(b * pow2(7 * m) == 128 * (b * pow2(7 * m1))) by (nonlinear_arith)
            requires pow2(7 * m) == 128 * pow2(7 * m1);
        assert(leb128_value(s, m + 1) == leb128_value(s, m) + b * pow2(7 * m));
        assert(leb128_value(t, m) == leb128_value(t, m1) + b * pow2(7 * m1));
    }
}

/// Shape of an encoding: at least one byte, the top bit set on all but the last.
pub proof fn lemma_leb128_shape(v: nat)
    ensures
        leb128_bytes(v).len() >= 1,
        leb128_bytes(v)[leb128_bytes(v).len() - 1] < 128,
        forall|j: int| 0 <= j < leb128_bytes(v).len() - 1 ==> leb128_bytes(v)[j] >= 128,
    decreases v,
{
    if v >= 128 {
        lemma_leb128_shape(v / 128);
        let t = leb128_bytes(v / 128);
        let s = leb128_bytes(v);
        assert(s =~= seq![(v % 128 + 128) as u8] + t);
        assert forall|j: int| 0 <= j < s.len() - 1 implies s[j] >= 128 by {
            if j > 0 {
                assert(s[j] == t[j - 1]);
            }
        }
    }
}

/// Byte `j` of an encoding carries bits `7j` to `7j + 6` of the number in its low seven
/// bits, and has its top bit set exactly when more bytes follow.
pub proof fn lemma_leb128_byte(v: nat, j: nat)
    requires
        j < leb128_bytes(v).len(),
    ensures
        leb128_bytes(v)[j as int] % 128 == (v / pow2(7 * j)) % 128,
        (leb128_bytes(v)[j as int] >= 128) == (j + 1 < leb128_bytes(v).len()),
    decreases v,
{
    lemma_leb128_shape(v);
    lemma2_to64();
    if j == 0 {
        assert(pow2(0) == 1);
        assert(v / 1 == v);
    }
    if v >= 128 {
        let t = leb128_bytes(v / 128);
        assert(leb128_bytes(v) =~= seq![(v % 128 + 128) as u8] + t);
        if j == 0 {
            assert(leb128_bytes(v)[0] == (v % 128 + 128) as u8);
            assert(((v % 128 + 128) as u8) % 128 == v % 128);
        }
        if j > 0 {
            let j1 = (j - 1) as nat;
            lemma_leb128_byte(v / 128, j1);
            lemma_pow2_7_step(j1);
            lemma_pow2_pos(7 * j1);
            assert(7 * j == 7 * (j1 + 1));
            lemma_div_denominator(v as int, 128, pow2(7 * j1) as int);
            assert(pow2(7 * j) == 128 * pow2(7 * j1));
            assert(v / pow2(7 * j) == (v / 128) / pow2(7 * j1));
            assert(leb128_bytes(v)[j as int] == t[j1 as int]);
        }
    }
}

/// An encoding of a number below 2^(7n) takes at most `n` bytes.
pub proof fn lemma_leb128_len(v: nat, n: nat)
    requires
        n >= 1,
        v < pow2(7 * n),
    ensures
        leb128_bytes(v).len() <= n,
    decreases v,
{
    if v >= 128 {
        if n == 1 {
            lemma_pow2_7();
            assert(false);
        }
        let n1 = (n - 1) as nat;
        lemma_pow2_7_step(n1);
        assert(v / 128 < pow2(7 * n1)) by (nonlinear_arith)
            requires v < 128 * pow2(7 * n1), v >= 0;
        lemma_leb128_len(v / 128, n1);
    }
}

/// A number at or above 2^(7n) takes more than `n` bytes.
pub proof fn lemma_leb128_len_above(v: nat, n: nat)
    requires
        v >= pow2(7 * n),
    ensures
        leb128_bytes(v).len() > n,
    decreases n,
{
    lemma_leb128_shape(v);
    if n > 0 {
        let n1 = (n - 1) as nat;
        lemma_pow2_7_step(n1);
        lemma_pow2_pos(7 * n1);
        assert(v >= 128);
        assert(v / 128 >= pow2(7 * n1)) by (nonlinear_arith)
            requires v >= 128 * pow2(7 * n1);
        lemma_leb128_len_above(v / 128, n1);
        assert(leb128_bytes(v) =~= seq![(v % 128 + 128) as u8] + leb128_bytes(v / 128));
    }
}

/// An encoding takes exactly `n` bytes when `n` is the least count of seven-bit groups that
/// holds the number: `v < 2^(7n)`, and `v >= 2^(7(n - 1))` unless `n` is 1.
pub proof fn lemma_leb128_len_exact(v: nat, n: nat)
    requires
        n >= 1,
    ensures
        (leb128_bytes(v).len() == n) <==> (v < pow2(7 * n) && (n == 1 || v >= pow2((7 * (n - 1)) as nat))),
{
    if v < pow2(7 * n) {
        lemma_leb128_len(v, n);
        if n > 1 && v >= pow2((7 * (n - 1)) as nat) {
            lemma_leb128_len_above(v, (n - 1) as nat);
        }
        if n > 1 && v < pow2((7 * (n - 1)) as nat) {
            lemma_leb128_len(v, (n - 1) as nat);
        }
    } else {
        lemma_leb128_len_above(v, n);
    }
}

/// The bytes of an encoding stand for the number encoded.
pub proof fn lemma_leb128_value_of_bytes(v: nat, rest: Seq<u8>)
    ensures
        leb128_value(leb128_bytes(v) + rest, leb128_bytes(v).len()) == v,
    decreases v,
{
    let s = leb128_bytes(v) + rest;
    lemma_leb128_shape(v);
    if v < 128 {
        lemma2_to64();
        assert(s[0] == v as u8);
        assert(leb128_value(s, 1) == leb128_value(s, 0) + (s[0] % 128) as nat * pow2(0));
    } else {
        let t = leb128_bytes(v / 128);
        lemma_leb128_shape(v / 128);
        assert(leb128_bytes(v) =~= seq![(v % 128 + 128) as u8] + t);
        let m = t.len();
        assert(s.drop_first() =~= t + rest);
        lemma_leb128_value_shift(s, m);
        lemma_leb128_value_of_bytes(v / 128, rest);
        assert(s[0] == (v % 128 + 128) as u8);
    }
}

/// The end of an encoding is found at its last byte.
pub proof fn lemma_leb128_end_of_bytes(v: nat, rest: Seq<u8>, i: nat, max: nat)
    requires
        i < leb128_bytes(v).len(),
        leb128_bytes(v).len() <= max,
    ensures
        leb128_end(leb128_bytes(v) + rest, i, max) == Some((leb128_bytes(v).len() - 1) as nat),
    decreases leb128_bytes(v).len() - i,
{
    lemma_leb128_shape(v);
    let s = leb128_bytes(v) + rest;
    if i + 1 < leb128_bytes(v).len() {
        assert(s[i as int] >= 128);
        lemma_leb128_end_of_bytes(v, rest, i + 1, max);
    } else {
        assert(s[i as int] < 128);
    }
}

/// Where an end is found it lies within the bytes and before `max`.
pub proof fn lemma_leb128_end_bounds(s: Seq<u8>, i: nat, max: nat)
    ensures
        leb128_end(s, i, max) matches Some(k) ==> i <= k < s.len() && k < max,
    decreases max - i,
{
    if i < s.len() && i < max && s[i as int] >= 128 {
        lemma_leb128_end_bounds(s, i + 1, max);
    }
}

/// What is written after the encoding does not change what decoding reads.
pub proof fn lemma_leb128_decode_encoded(v: nat, rest: Seq<u8>, max: nat, bits: nat)
    requires
        leb128_bytes(v).len() <= max,
        v < pow2(bits),
    ensures
        leb128_decode_spec(leb128_bytes(v) + rest, max, bits) == Some((v, leb128_bytes(v).len())),
{
    lemma_leb128_shape(v);
    lemma_leb128_end_of_bytes(v, rest, 0, max);
    lemma_leb128_value_of_bytes(v, rest);
    lemma_small_mod(v, pow2(bits));
}

/// Decoding a 32-bit LEB128 encoding gives back the number and the bytes it took.
pub proof fn lemma_leb128_u32_roundtrip(v: u32, rest: Seq<u8>)
    ensures
        leb128_bytes(v as nat).len() <= 5,
        leb128_decode_spec(leb128_bytes(v as nat) + rest, 5, 32) == Some((v as nat, leb128_bytes(v as nat).len())),
{
    lemma2_to64();
    lemma2_to64_rest();
    lemma_pow2_strictly_increases(32, 35);
    lemma_leb128_len(v as nat, 5);
    lemma_leb128_decode_encoded(v as nat, rest, 5, 32);
}

/// Decoding a 64-bit LEB128 encoding gives back the number and the bytes it took.
pub proof fn lemma_leb128_u64_roundtrip(v: u64, rest: Seq<u8>)
    ensures
        leb128_bytes(v as nat).len() <= 10,
        leb128_decode_spec(leb128_bytes(v as nat) + rest, 10, 64) == Some((v as nat, leb128_bytes(v as nat).len())),
{
    lemma_pow2_7();
    lemma_pow2_strictly_increases(64, 70);
    lemma_leb128_len(v as nat, 10);
    lemma_leb128_decode_encoded(v as nat, rest, 10, 64);
}

/// Writes the LEB128 bytes of `value` into `buf` from index `at`; returns the index
/// just past them.
pub(crate) fn put_leb128(value: u64, buf: &mut [u8], at: usize) -> (end: usize)
    requires
        at + leb128_bytes(value as nat).len() <= old(buf)@.len(),
    ensures
        end == at + leb128_bytes(value as nat).len(),
        final(buf)@ == old(buf)@.subrange(0, at as int) + leb128_bytes(value as nat)
            + old(buf)@.subrange(end as int, old(buf)@.len() as int),
{
    let ghost orig = buf@;
    let mut v = value;
    let mut i = at;
    loop
        invariant_except_break
            at <= i,
            buf@.len() == orig.len(),
            i + leb128_bytes(v as nat).len() <= orig.len(),
            leb128_bytes(value as nat) == buf@.subrange(at as int, i as int) + leb128_bytes(v as nat),
            buf@.subrange(0, at as int) == orig.subrange(0, at as int),
            forall|j: int| i <= j < orig.len() ==> buf@[j] == orig[j],
        ensures
            buf@.len() == orig.len(),
            i == at + leb128_bytes(value as nat).len(),
            buf@.subrange(at as int, i as int) == leb128_bytes(value as nat),
            buf@.subrange(0, at as int) == orig.subrange(0, at as int),
            forall|j: int| i <= j < orig.len() ==> buf@[j] == orig[j],
        decreases v,
    {
        let ghost v0 = v;
        let ghost before = buf@;
        let low = v & 0x7f;
        let mut byte = low as u8;
        v = v >> 7u64;
        assert(low == v0 % 128 && v == v0 / 128) by (bit_vector)
            requires low == v0 & 0x7f, v == v0 >> 7u64;
        if v != 0 {
            assert(byte | 0x80u8 == byte + 128) by (bit_vector)
                requires byte < 128;
            byte = byte | 0x80;
        }
        buf[i] = byte;
        i = i + 1;
        proof {
            let w = before.subrange(at as int, (i - 1) as int);
            assert(buf@.subrange(at as int, i as int) =~= w.push(byte));
            assert(buf@.subrange(0, at as int) =~= before.subrange(0, at as int));
            if v0 < 128 {
                assert(leb128_bytes(v0 as nat) =~= seq![byte]);
                assert(leb128_bytes(value as nat) =~= buf@.subrange(at as int, i as int));
            } else {
                assert(leb128_bytes(v0 as nat) =~= seq![byte] + leb128_bytes(v as nat));
                assert(leb128_bytes(value as nat) =~= buf@.subrange(at as int, i as int) + leb128_bytes(v as nat));
            }
        }
        if v == 0 {
            break;
        }
    }
    proof {
        assert(buf@ =~= orig.subrange(0, at as int) + leb128_bytes(value as nat)
            + orig.subrange(i as int, orig.len() as int)) by {
            assert(buf@ =~= buf@.subrange(0, at as int) + buf@.subrange(at as int, i as int)
                + buf@.subrange(i as int, orig.len() as int));
            assert(buf@.subrange(i as int, orig.len() as int) =~= orig.subrange(i as int, orig.len() as int));
        }
    }
    i
}

/// LEB128-encodes a 32-bit number into `buf`; returns the number of bytes written
/// (at most 5). The buffer must hold them.
pub fn leb128_encode_u32(value: u32, buf: &mut [u8]) -> (r: usize)
    requires
        leb128_bytes(value as nat).len() <= old(buf)@.len(),
    ensures
        r == leb128_bytes(value as nat).len(),
        r <= 5,
        final(buf)@ == leb128_bytes(value as nat) + old(buf)@.subrange(r as int, old(buf)@.len() as int),
{
    proof {
        lemma_leb128_u32_roundtrip(value, seq![]);
        assert(old(buf)@.subrange(0, 0) =~= Seq::<u8>::empty());
    }
    let r = put_leb128(value as u64, buf, 0);
    proof {
        assert(old(buf)@.subrange(0, 0) + leb128_bytes(value as nat) =~= leb128_bytes(value as nat));
    }
    r
}

/// LEB128-encodes a 64-bit number into `buf`; returns the number of bytes written
/// (at most 10). The buffer must hold them.
pub fn leb128_encode_u64(value: u64, buf: &mut [u8]) -> (r: usize)
    requires
        leb128_bytes(value as nat).len() <= old(buf)@.len(),
    ensures
        r == leb128_bytes(value as nat).len(),
        r <= 10,
        final(buf)@ == leb128_bytes(value as nat) + old(buf)@.subrange(r as int, old(buf)@.len() as int),
{
    proof {
        lemma_leb128_u64_roundtrip(value, seq![]);
    }
    let r = put_leb128(value, buf, 0);
    proof {
        assert(old(buf)@.subrange(0, 0) + leb128_bytes(value as nat) =~= leb128_bytes(value as nat));
    }
    r
}

/// Decodes a 32-bit LEB128 number from the start of `buf`: the number and the bytes read,
/// or `None` when none of the first five bytes (or of the buffer) ends it.
pub fn leb128_decode_u32(buf: &[u8]) -> (r: Option<(u32, usize)>)
    ensures
        r matches Some(p) ==> 1 <= p.1 <= buf@.len(),
        r == (match leb128_decode_spec(buf@, 5, 32) {
            Some(p) => Some((p.0 as u32, p.1 as usize)),
            None => None::<(u32, usize)>,
        }),
{
    let mut result: u32 = 0;
    let mut shift: u32 = 0;
    let mut i: usize = 0;
    loop
        invariant_except_break
            i <= 4,
            shift == 7 * i,
            result == leb128_value(buf@, i as nat),
            leb128_end(buf@, 0, 5) == leb128_end(buf@, i as nat, 5),
        ensures
            1 <= i <= 5,
            leb128_end(buf@, 0, 5) == Some((i - 1) as nat),
            result == leb128_value(buf@, i as nat) % pow2(32),
        decreases 5 - i,
    {
        if i >= buf.len() || i >= 5 {
            return None;
        }
        let byte = buf[i];
        let y: u32 = (byte & 0x7f) as u32;
        assert(y == byte % 128 && ((byte & 0x80) == 0) == (byte < 128)) by (bit_vector)
            requires y == (byte & 0x7f) as u32;
        proof {
            lemma_leb128_value_bound(buf@, i as nat);
            lemma_or_shift_u32(result, y, shift);
        }
        result = result | (y << shift);
        i = i + 1;
        proof {
            lemma_pow2_7();
            lemma_leb128_value_bound(buf@, i as nat);
            if i <= 4 {
                lemma_pow2_strictly_increases((7 * i) as nat, 32);
                lemma_small_mod(leb128_value(buf@, i as nat), pow2(32));
            }
        }
        if (byte & 0x80) == 0 {
            break;
        }
        if i >= 5 {
            return None;
        }
        shift = shift + 7;
    }
    proof {
        lemma_leb128_end_bounds(buf@, 0, 5);
        lemma_leb128_end_bounds(buf@, 0, 10);
    }
    Some((result, i))
}

/// Decodes a 64-bit LEB128 number from the start of `buf`: the number and the bytes read,
/// or `None` when none of the first ten bytes (or of the buffer) ends it.
pub fn leb128_decode_u64(buf: &[u8]) -> (r: Option<(u64, usize)>)
    ensures
        r matches Some(p) ==> 1 <= p.1 <= buf@.len(),
        r == (match leb128_decode_spec(buf@, 10, 64) {
            Some(p) => Some((p.0 as u64, p.1 as usize)),
            None => None::<(u64, usize)>,
        }),
{
    let mut result: u64 = 0;
    let mut shift: u64 = 0;
    let mut i: usize = 0;
    loop
        invariant_except_break
            i <= 9,
            shift == 7 * i,
            result == leb128_value(buf@, i as nat),
            leb128_end(buf@, 0, 10) == leb128_end(buf@, i as nat, 10),
        ensures
            1 <= i <= 10,
            leb128_end(buf@, 0, 10) == Some((i - 1) as nat),
            result == leb128_value(buf@, i as nat) % pow2(64),
        decreases 10 - i,
    {
        if i >= buf.len() || i >= 10 {
            return None;
        }
        let byte = buf[i];
        let y: u64 = (byte & 0x7f) as u64;
        assert(y == byte % 128 && ((byte & 0x80) == 0) == (byte < 128)) by (bit_vector)
            requires y == (byte & 0x7f) as u64;
        proof {
            lemma_leb128_value_bound(buf@, i as nat);
            lemma_or_shift_u64(result, y, shift);
        }
        result = result | (y << shift);
        i = i + 1;
        proof {
            lemma_pow2_7();
            lemma_leb128_value_bound(buf@, i as nat);
            if i <= 9 {
                lemma_pow2_strictly_increases((7 * i) as nat, 64);
                lemma_small_mod(leb128_value(buf@, i as nat), pow2(64));
            }
        }
        if (byte & 0x80) == 0 {
            break;
        }
        if i >= 10 {
            return None;
        }
        shift = shift + 7;
    }
    proof {
        lemma_leb128_end_bounds(buf@, 0, 5);
        lemma_leb128_end_bounds(buf@, 0, 10);
    }
    Some((result, i))
}

/// `r | (y << s)` adds `y * 2^s` to an `r` below `2^s`, modulo 2^32.
proof fn lemma_or_shift_u32(r: u32, y: u32, s: u32)
    requires
        y < 128,
        s <= 28,
        r < pow2(s as nat),
    ensures
        r | (y << s) == (r + y * pow2(s as nat)) % (pow2(32) as int),
{
    lemma_pow2_7();
    lemma_u32_pow2_no_overflow(s as nat);
    lemma_u32_shl_is_mul(1u32, s);
    if s < 28 {
        lemma_pow2_strictly_increases(s as nat, 28);
    }
    assert(r < (1u32 << s));
    assert((r | (y << s)) == r + (y << s)) by (bit_vector)
        requires r < (1u32 << s), s < 32;
    let y64 = y as u64;
    let s64 = s as u64;
    assert(y * pow2(s as nat) <= 127 * 0x1000_0000) by (nonlinear_arith)
        requires y <= 127, pow2(s as nat) <= 0x1000_0000;
    lemma_u64_shl_is_mul(y64, s64);
    let big: u64 = y64 << s64;
    assert((y << s) == big as u32) by (bit_vector)
        requires y64 == y as u64, s64 == s as u64, big == y64 << s64, s < 32;
    assert(big as u32 == big % 0x1_0000_0000) by (bit_vector);
    let m = 0x1_0000_0000int;
    let q = (big as int) / m;
    let t = (big as int) % m;
    assert(big == q * m + t);
    assert(r + t < m);
    lemma_div_mod_unique(r + y * pow2(s as nat), m, q, r + t);
}

/// `r | (y << s)` adds `y * 2^s` to an `r` below `2^s`, modulo 2^64, for the shifts
/// that seven-bit groups take.
proof fn lemma_or_shift_u64(r: u64, y: u64, s: u64)
    requires
        y < 128,
        s <= 56 || s == 63,
        r < pow2(s as nat),
    ensures
        r | (y << s) == (r + y * pow2(s as nat)) % (pow2(64) as int),
{
    lemma_pow2_7();
    lemma_u64_pow2_no_overflow(s as nat);
    lemma_u64_shl_is_mul(1u64, s);
    assert(r < (1u64 << s));
    assert((r | (y << s)) == r + (y << s)) by (bit_vector)
        requires r < (1u64 << s), s < 64;
    let m = 0x1_0000_0000_0000_0000int;
    if s <= 56 {
        if s < 56 {
            lemma_pow2_strictly_increases(s as nat, 56);
        }
        assert(y * pow2(s as nat) <= 127 * 0x100_0000_0000_0000) by (nonlinear_arith)
            requires y <= 127, pow2(s as nat) <= 0x100_0000_0000_0000;
        lemma_u64_shl_is_mul(y, s);
        assert(y * pow2(s as nat) <= 127 * pow2(s as nat)) by (nonlinear_arith)
            requires y <= 127;
        assert(r + y * pow2(s as nat) < m);
        lemma_small_mod((r + y * pow2(s as nat)) as nat, m as nat);
    } else {
        let y2 = y % 2;
        assert((y << s) == (y2 << s)) by (bit_vector)
            requires y2 == y % 2, s == 63;
        lemma_u64_shl_is_mul(y2, s);
        let h = 0x8000_0000_0000_0000int;
        assert(y * h == (y / 2) * m + y2 * h) by (nonlinear_arith)
            requires y2 == y % 2, m == 2 * h;
        assert(r + y2 * h < m) by (nonlinear_arith)
            requires r < h, y2 <= 1, m == 2 * h;
        lemma_div_mod_unique(r + y * h, m, (y / 2) as int, r + y2 * h);
    }
}

} // verus!
