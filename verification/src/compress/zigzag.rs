use vstd::prelude::*;

verus! {

/// ZigZag: 0, -1, 1, -2, 2, ... go to 0, 1, 2, 3, 4, ...
pub open spec fn zigzag_spec(n: int) -> int {
    if n >= 0 {
        2 * n
    } else {
        -2 * n - 1
    }
}

/// The inverse of ZigZag: even numbers are the non-negative values, odd ones the negative.
pub open spec fn unzigzag_spec(z: int) -> int {
    if z % 2 == 0 {
        z / 2
    } else {
        -(z / 2) - 1
    }
}

/// ZigZag encoding for 32-bit signed integers.
pub fn zigzag_encode_i32(n: i32) -> (r: u32)
    ensures
        r == zigzag_spec(n as int),
{
    let x: u32 = n as u32;
    let r: u32 = (x << 1u32) ^ ((n >> 31u32) as u32);
    assert(r == zigzag_spec(n as int)) by (bit_vector)
        requires
            x == n as u32,
            r == (x << 1u32) ^ ((n >> 31u32) as u32),
    ;
    r
}

/// ZigZag decoding for 32-bit integers.
pub fn zigzag_decode_u32(n: u32) -> (r: i32)
    ensures
        r == unzigzag_spec(n as int),
{
    let h: i32 = (n / 2) as i32;
    let s: i32 = (n % 2) as i32;
    let m: i32 = -s;
    let r: i32 = h ^ m;
    assert(r == unzigzag_spec(n as int)) by (bit_vector)
        requires
            h == (n / 2) as i32,
            s == (n % 2) as i32,
            m == -s,
            r == h ^ m,
    ;
    r
}

/// ZigZag encoding for 64-bit signed integers.
pub fn zigzag_encode_i64(n: i64) -> (r: u64)
    ensures
        r == zigzag_spec(n as int),
{
    let x: u64 = n as u64;
    let r: u64 = (x << 1u64) ^ ((n >> 63u64) as u64);
    assert(r == zigzag_spec(n as int)) by (bit_vector)
        requires
            x == n as u64,
            r == (x << 1u64) ^ ((n >> 63u64) as u64),
    ;
    r
}

/// ZigZag decoding for 64-bit integers.
pub fn zigzag_decode_u64(n: u64) -> (r: i64)
    ensures
        r == unzigzag_spec(n as int),
{
    let h: i64 = (n / 2) as i64;
    let s: i64 = (n % 2) as i64;
    let m: i64 = -s;
    let r: i64 = h ^ m;
    assert(r == unzigzag_spec(n as int)) by (bit_vector)
        requires
            h == (n / 2) as i64,
            s == (n % 2) as i64,
            m == -s,
            r == h ^ m,
    ;
    r
}

/// Decoding undoes encoding, for every signed integer.
pub proof fn lemma_zigzag_roundtrip(n: int)
    ensures
        unzigzag_spec(zigzag_spec(n)) == n,
        zigzag_spec(n) >= 0,
{
}

/// Encoding undoes decoding, for every unsigned integer.
pub proof fn lemma_unzigzag_roundtrip(z: int)
    requires
        z >= 0,
    ensures
        zigzag_spec(unzigzag_spec(z)) == z,
{
}

/// Small magnitudes give small codes: `|n| <= zigzag(n) <= 2 |n|`.
pub proof fn lemma_zigzag_small(n: int)
    ensures
        n >= 0 ==> n <= zigzag_spec(n) <= 2 * n,
        n < 0 ==> -n <= zigzag_spec(n) < -2 * n,
{
}


/// The closed form of ZigZag decoding: an even code `z` gives `z / 2`, an odd one
/// `-(z + 1) / 2`; so the magnitude decoded is `(z + 1) / 2`, the sign the low bit.
pub proof fn lemma_unzigzag_closed_form(z: int)
    requires
        z >= 0,
    ensures
        unzigzag_spec(z) == if z % 2 == 0 { z / 2 } else { -((z + 1) / 2) },
        (unzigzag_spec(z) < 0) == (z % 2 == 1),
{
}

} // verus!
