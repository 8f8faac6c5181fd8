use vstd::prelude::*;
use vstd::arithmetic::power2::*;
use super::zigzag::{zigzag_spec, unzigzag_spec, zigzag_encode_i32, zigzag_decode_u32,
    zigzag_encode_i64, zigzag_decode_u64, lemma_zigzag_roundtrip};
use super::leb128::{leb128_bytes, leb128_decode_spec, leb128_encode_u32, leb128_encode_u64,
    leb128_decode_u32, leb128_decode_u64, lemma_leb128_u32_roundtrip, lemma_leb128_u64_roundtrip};

verus! {

/// The bytes `compress_i32` writes for `v`: its ZigZag code in LEB128.
pub open spec fn compress_i32_bytes(v: i32) -> Seq<u8> {
    leb128_bytes(zigzag_spec(v as int) as nat)
}

/// The bytes `compress_i64` writes for `v`.
pub open spec fn compress_i64_bytes(v: i64) -> Seq<u8> {
    leb128_bytes(zigzag_spec(v as int) as nat)
}

/// What `decompress_i32` reads from `s`.
pub open spec fn decompress_i32_spec(s: Seq<u8>) -> Option<(i32, usize)> {
    match leb128_decode_spec(s, 5, 32) {
        Some(p) => Some((unzigzag_spec(p.0 as int) as i32, p.1 as usize)),
        None => None,
    }
}

/// What `decompress_i64` reads from `s`.
pub open spec fn decompress_i64_spec(s: Seq<u8>) -> Option<(i64, usize)> {
    match leb128_decode_spec(s, 10, 64) {
        Some(p) => Some((unzigzag_spec(p.0 as int) as i64, p.1 as usize)),
        None => None,
    }
}

/// Compresses an i32 into `buf` with ZigZag and LEB128; returns the bytes written.
pub fn compress_i32(value: i32, buf: &mut [u8]) -> (r: usize)
    requires
        compress_i32_bytes(value).len() <= old(buf)@.len(),
    ensures
        r == compress_i32_bytes(value).len(),
        final(buf)@ == compress_i32_bytes(value) + old(buf)@.subrange(r as int, old(buf)@.len() as int),
{
    let z = zigzag_encode_i32(value);
    leb128_encode_u32(z, buf)
}

/// Decompresses an i32 from the start of `buf`: the value and the bytes read, or
/// `None` when the bytes are malformed.
pub fn decompress_i32(buf: &[u8]) -> (r: Option<(i32, usize)>)
    ensures
        r == decompress_i32_spec(buf@),
{
    proof {
        lemma2_to64();
        lemma2_to64_rest();
    }
    match leb128_decode_u32(buf) {
        Some((z, size)) => Some((zigzag_decode_u32(z), size)),
        None => None,
    }
}

/// Compresses an i64 into `buf` with ZigZag and LEB128; returns the bytes written.
pub fn compress_i64(value: i64, buf: &mut [u8]) -> (r: usize)
    requires
        compress_i64_bytes(value).len() <= old(buf)@.len(),
    ensures
        r == compress_i64_bytes(value).len(),
        final(buf)@ == compress_i64_bytes(value) + old(buf)@.subrange(r as int, old(buf)@.len() as int),
{
    let z = zigzag_encode_i64(value);
    leb128_encode_u64(z, buf)
}

/// Decompresses an i64 from the start of `buf`: the value and the bytes read, or
/// `None` when the bytes are malformed.
pub fn decompress_i64(buf: &[u8]) -> (r: Option<(i64, usize)>)
    ensures
        r == decompress_i64_spec(buf@),
{
    proof {
        lemma2_to64();
        lemma2_to64_rest();
    }
    match leb128_decode_u64(buf) {
        Some((z, size)) => Some((zigzag_decode_u64(z), size)),
        None => None,
    }
}

/// Decompressing what `compress_i32` wrote gives the value back, whatever follows it.
pub proof fn lemma_compress_i32_roundtrip(v: i32, rest: Seq<u8>)
    ensures
        compress_i32_bytes(v).len() <= 5,
        decompress_i32_spec(compress_i32_bytes(v) + rest) == Some((v, compress_i32_bytes(v).len() as usize)),
{
    lemma_zigzag_roundtrip(v as int);
    let z = zigzag_spec(v as int);
    assert(0 <= z <= 0xffff_ffff);
    lemma_leb128_u32_roundtrip(z as u32, rest);
}

/// Decompressing what `compress_i64` wrote gives the value back, whatever follows it.
pub proof fn lemma_compress_i64_roundtrip(v: i64, rest: Seq<u8>)
    ensures
        compress_i64_bytes(v).len() <= 10,
        decompress_i64_spec(compress_i64_bytes(v) + rest) == Some((v, compress_i64_bytes(v).len() as usize)),
{
    lemma_zigzag_roundtrip(v as int);
    let z = zigzag_spec(v as int);
    assert(0 <= z <= 0xffff_ffff_ffff_ffff);
    lemma_leb128_u64_roundtrip(z as u64, rest);
}

} // verus!
