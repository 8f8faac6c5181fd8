use vstd::prelude::*;
use vstd::arithmetic::power2::*;
use vstd::slice::slice_subrange;
use super::zigzag::{zigzag_spec, unzigzag_spec, zigzag_encode_i32, zigzag_decode_u32, lemma_zigzag_roundtrip};
use super::leb128::{leb128_bytes, leb128_decode_spec, leb128_decode_u32, leb128_decode_u64,
    lemma_leb128_u32_roundtrip, lemma_leb128_u64_roundtrip, lemma_leb128_len, put_leb128, lemma_leb128_end_bounds};

verus! {

/// The escape code 0 and the count that a pending run of `run` repeats is written as
/// (nothing for no run).
pub open spec fn rle_run_bytes(run: u32) -> Seq<u8> {
    if run > 0 {
        leb128_bytes(0) + leb128_bytes(run as nat)
    } else {
        seq![]
    }
}

/// The code of a difference: its ZigZag code plus one, never 0, which is kept for the
/// escape.
pub open spec fn rle_code(delta: i32) -> nat {
    (zigzag_spec(delta as int) + 1) as nat
}

/// The bytes a difference is written as.
pub open spec fn rle_value_bytes(delta: i32) -> Seq<u8> {
    leb128_bytes(rle_code(delta))
}

/// The bytes a code is read from: at most the first five (enough for any code, which is
/// at most 2^32).
pub open spec fn code_window(s: Seq<u8>) -> Seq<u8> {
    s.subrange(0, if s.len() < 5 { s.len() as int } else { 5 })
}

/// What one decoding step gives from the state (`last`, `run`) and the bytes `s`:
/// the value, the bytes read, and the new last value and pending run.
pub open spec fn rle_decode_spec(last: i32, run: u32, s: Seq<u8>) -> Option<(i32, usize, i32, u32)> {
    if run > 0 {
        Some((last, 0usize, last, (run - 1) as u32))
    } else {
        match leb128_decode_spec(code_window(s), 10, 64) {
            None => None,
            Some(p) => if p.0 == 0 {
                match leb128_decode_spec(s.subrange(p.1 as int, s.len() as int), 5, 32) {
                    None => None,
                    Some(q) => Some((last, (p.1 + q.1) as usize, last, if q.0 > 0 { (q.0 - 1) as u32 } else { 0u32 })),
                }
            } else {
                let v = last.wrapping_add(unzigzag_spec((p.0 - 1) % 0x1_0000_0000) as i32);
                Some((v, p.1 as usize, v, 0u32))
            },
        }
    }
}

/// Delta encoder with run-length encoding of repeats: a repeat writes nothing and is
/// counted; the count is written, after the escape code 0, before the next change.
pub struct RleTimeSeriesEncoder {
    last_value: i32,
    run_count: u32,
}

impl RleTimeSeriesEncoder {
    /// The last value seen.
    pub closed spec fn last(&self) -> i32 {
        self.last_value
    }

    /// The repeats counted and not yet written.
    pub closed spec fn run(&self) -> u32 {
        self.run_count
    }

    pub fn new(initial_value: i32) -> (r: Self)
        ensures
            r.last() == initial_value,
            r.run() == 0,
    {
        RleTimeSeriesEncoder { last_value: initial_value, run_count: 0 }
    }

    /// Encodes the next value. A repeat of the last value (while the count has room)
    /// writes nothing and returns 0; any other value writes the pending run, if any, then
    /// the difference; returns the bytes written.
    pub fn encode_next(&mut self, current: i32, buf: &mut [u8]) -> (r: usize)
        requires
            ({
                let d = current.wrapping_sub(old(self).last());
                (d == 0 && old(self).run() < u32::MAX)
                    || (rle_run_bytes(old(self).run()) + rle_value_bytes(d)).len() <= old(buf)@.len()
            }),
        ensures
            ({
                let d = current.wrapping_sub(old(self).last());
                let bytes = rle_run_bytes(old(self).run()) + rle_value_bytes(d);
                if d == 0 && old(self).run() < u32::MAX {
                    &&& r == 0
                    &&& final(self).last() == old(self).last()
                    &&& final(self).run() == old(self).run() + 1
                    &&& final(buf)@ == old(buf)@
                } else {
                    &&& r == bytes.len()
                    &&& final(buf)@ == bytes + old(buf)@.subrange(r as int, old(buf)@.len() as int)
                    &&& final(self).last() == current
                    &&& final(self).run() == 0
                }
            }),
    {
        let delta = current.wrapping_sub(self.last_value);
        if delta == 0 && self.run_count < u32::MAX {
            self.run_count = self.run_count + 1;
            return 0;
        }
        let ghost d = delta;
        let ghost orig = buf@;
        let ghost run0 = self.run_count;
        let mut size: usize = 0;
        if self.run_count > 0 {
            size = self.flush_run(buf);
        }
        proof {
            assert(buf@ =~= rle_run_bytes(run0) + orig.subrange(size as int, orig.len() as int));
        }
        self.last_value = current;
        let z = zigzag_encode_i32(delta) as u64 + 1;
        proof {
            assert(z == rle_code(d));
        }
        let end = put_leb128(z, buf, size);
        proof {
            let bytes = rle_run_bytes(run0) + rle_value_bytes(d);
            assert(buf@ =~= bytes + orig.subrange(end as int, orig.len() as int));
        }
        end
    }

    /// Writes the pending run, if any; returns the bytes written.
    pub fn flush(&mut self, buf: &mut [u8]) -> (r: usize)
        requires
            rle_run_bytes(old(self).run()).len() <= old(buf)@.len(),
        ensures
            r == rle_run_bytes(old(self).run()).len(),
            final(buf)@ == rle_run_bytes(old(self).run()) + old(buf)@.subrange(r as int, old(buf)@.len() as int),
            final(self).last() == old(self).last(),
            final(self).run() == 0,
    {
        if self.run_count > 0 {
            self.flush_run(buf)
        } else {
            proof {
                assert(buf@ =~= rle_run_bytes(self.run_count) + buf@.subrange(0, buf@.len() as int));
            }
            0
        }
    }

    fn flush_run(&mut self, buf: &mut [u8]) -> (r: usize)
        requires
            old(self).run() > 0,
            rle_run_bytes(old(self).run()).len() <= old(buf)@.len(),
        ensures
            r == rle_run_bytes(old(self).run()).len(),
            final(buf)@ == rle_run_bytes(old(self).run()) + old(buf)@.subrange(r as int, old(buf)@.len() as int),
            final(self).last() == old(self).last(),
            final(self).run() == 0,
    {
        let ghost orig = buf@;
        let mid = put_leb128(0, buf, 0);
        let end = put_leb128(self.run_count as u64, buf, mid);
        self.run_count = 0;
        proof {
            assert(buf@ =~= rle_run_bytes(old(self).run()) + orig.subrange(end as int, orig.len() as int));
        }
        end
    }
}

/// Decoder for what `RleTimeSeriesEncoder` writes.
pub struct RleTimeSeriesDecoder {
    last_value: i32,
    run_count: u32,
}

impl RleTimeSeriesDecoder {
    /// The last value decoded.
    pub closed spec fn last(&self) -> i32 {
        self.last_value
    }

    /// The repeats still to hand out.
    pub closed spec fn run(&self) -> u32 {
        self.run_count
    }

    pub fn new(initial_value: i32) -> (r: Self)
        ensures
            r.last() == initial_value,
            r.run() == 0,
    {
        RleTimeSeriesDecoder { last_value: initial_value, run_count: 0 }
    }

    /// Decodes the next value and the bytes read. While a run is being unpacked the last
    /// value comes back with 0 bytes read; `None`, with nothing changed, when the bytes are
    /// malformed.
    pub fn decode_next(&mut self, buf: &[u8]) -> (r: Option<(i32, usize)>)
        ensures
            match rle_decode_spec(old(self).last(), old(self).run(), buf@) {
                Some(t) => {
                    &&& r == Some((t.0, t.1))
                    &&& final(self).last() == t.2
                    &&& final(self).run() == t.3
                },
                None => {
                    &&& r is None
                    &&& final(self).last() == old(self).last()
                    &&& final(self).run() == old(self).run()
                },
            },
    {
        if self.run_count > 0 {
            self.run_count = self.run_count - 1;
            return Some((self.last_value, 0));
        }
        proof {
            lemma2_to64();
            lemma2_to64_rest();
            lemma_leb128_end_bounds(code_window(buf@), 0, 10);
        }
        let window = if buf.len() < 5 {
            buf.len()
        } else {
            5
        };
        let head = slice_subrange(buf, 0, window);
        assert(head@ == code_window(buf@));
        let (z_shifted, size) = match leb128_decode_u64(head) {
            Some(p) => p,
            None => return None,
        };
        if z_shifted == 0 {
            let tail = slice_subrange(buf, size, buf.len());
            proof {
                lemma_leb128_end_bounds(tail@, 0, 5);
            }
            let (count, count_size) = match leb128_decode_u32(tail) {
                Some(p) => p,
                None => return None,
            };
            if count > 0 {
                self.run_count = count - 1;
            }
            return Some((self.last_value, size + count_size));
        }
        let low: u64 = (z_shifted - 1) % 0x1_0000_0000;
        let z = low as u32;
        let delta = zigzag_decode_u32(z);
        let current = self.last_value.wrapping_add(delta);
        self.last_value = current;
        Some((current, size))
    }
}

/// A pending run of `k` repeats, once written, decodes to the last value with the run's
/// bytes read, and leaves `k - 1` repeats to hand out; each of those comes back as the
/// last value with no bytes read.
pub proof fn lemma_rle_run_roundtrip(last: i32, k: u32, j: u32, rest: Seq<u8>)
    requires
        k > 0,
        j > 0,
    ensures
        rle_decode_spec(last, 0, rle_run_bytes(k) + rest)
            == Some((last, rle_run_bytes(k).len() as usize, last, (k - 1) as u32)),
        rle_decode_spec(last, j, rest) == Some((last, 0usize, last, (j - 1) as u32)),
        rle_run_bytes(k).len() <= 6,
{
    let s = rle_run_bytes(k) + rest;
    let zero = leb128_bytes(0);
    let kb = leb128_bytes(k as nat);
    assert(zero =~= seq![0u8]);
    let w = code_window(s);
    assert(w =~= zero + w.subrange(1, w.len() as int));
    lemma_leb128_u64_roundtrip(0u64, w.subrange(1, w.len() as int));
    assert(s =~= zero + (kb + rest));
    assert(s.subrange(1, s.len() as int) =~= kb + rest);
    lemma_leb128_u32_roundtrip(k, rest);
}

/// A written difference decodes to the value it was written for, with its bytes read.
pub proof fn lemma_rle_value_roundtrip(last: i32, current: i32, rest: Seq<u8>)
    ensures
        ({
            let d = current.wrapping_sub(last);
            rle_decode_spec(last, 0, rle_value_bytes(d) + rest)
                == Some((current, rle_value_bytes(d).len() as usize, current, 0u32))
        }),
        rle_value_bytes(current.wrapping_sub(last)).len() <= 5,
{
    let d = current.wrapping_sub(last);
    lemma_zigzag_roundtrip(d as int);
    let z = zigzag_spec(d as int);
    assert(z <= 0xffff_ffff);
    assert(rle_code(d) == z + 1);
    let vb = rle_value_bytes(d);
    let s = vb + rest;
    lemma2_to64();
    lemma2_to64_rest();
    lemma_leb128_len(rle_code(d), 5);
    let w = code_window(s);
    assert(w =~= vb + w.subrange(vb.len() as int, w.len() as int));
    lemma_leb128_u64_roundtrip((z + 1) as u64, w.subrange(vb.len() as int, w.len() as int));
    lemma2_to64();
    lemma2_to64_rest();
    lemma_leb128_len(rle_code(d), 5);
    assert((rle_code(d) - 1) % 0x1_0000_0000 == z);
    assert(unzigzag_spec(z) == d);
}

/// The bytes an `RleTimeSeriesEncoder` holding last value `last` and pending run `run`
/// writes for `vals`, one call after another, followed by a `flush`.
pub open spec fn rle_stream(last: i32, run: u32, vals: Seq<i32>) -> Seq<u8>
    decreases vals.len(),
{
    if vals.len() == 0 {
        rle_run_bytes(run)
    } else {
        let d = vals[0].wrapping_sub(last);
        if d == 0 && run < u32::MAX {
            rle_stream(last, (run + 1) as u32, vals.drop_first())
        } else {
            rle_run_bytes(run) + rle_value_bytes(d) + rle_stream(vals[0], 0, vals.drop_first())
        }
    }
}

/// What `n` calls of `RleTimeSeriesDecoder::decode_next` from last value `last` and pending
/// run `run` read from `bytes`, each call reading from where the one before stopped.
pub open spec fn rle_decode_stream(last: i32, run: u32, bytes: Seq<u8>, n: nat) -> Option<Seq<i32>>
    decreases n,
{
    if n == 0 {
        Some(seq![])
    } else {
        match rle_decode_spec(last, run, bytes) {
            None => None,
            Some(t) => match rle_decode_stream(t.2, t.3, bytes.subrange(t.1 as int, bytes.len() as int), (n - 1) as nat) {
                Some(rest) => Some(seq![t.0] + rest),
                None => None,
            },
        }
    }
}

/// `k` copies of `v`.
pub open spec fn repeated(v: i32, k: nat) -> Seq<i32> {
    Seq::new(k, |i: int| v)
}

/// A decoder with `j` repeats pending hands them out without reading, then goes on as a
/// decoder with none.
proof fn lemma_rle_pending(last: i32, j: u32, s: Seq<u8>, n: nat)
    requires
        j <= n,
    ensures
        rle_decode_stream(last, j, s, n) == match rle_decode_stream(last, 0, s, (n - j) as nat) {
            Some(r) => Some(repeated(last, j as nat) + r),
            None => None::<Seq<i32>>,
        },
    decreases j,
{
    if j > 0 {
        assert(s.subrange(0, s.len() as int) =~= s);
        lemma_rle_pending(last, (j - 1) as u32, s, (n - 1) as nat);
        match rle_decode_stream(last, 0, s, (n - j) as nat) {
            Some(r) => {
                assert(seq![last] + (repeated(last, (j - 1) as nat) + r) =~= repeated(last, j as nat) + r);
            },
            None => {},
        }
    } else {
        match rle_decode_stream(last, 0, s, n) {
            Some(r) => {
                assert(repeated(last, 0) + r =~= r);
            },
            None => {},
        }
    }
}

/// A written run of `run` repeats, read from a decoder with none pending, hands out the
/// `run` repeats and then goes on reading what follows.
proof fn lemma_rle_run_then(last: i32, run: u32, s: Seq<u8>, m: nat)
    requires
        run > 0,
    ensures
        rle_decode_stream(last, 0, rle_run_bytes(run) + s, (run + m) as nat) == match rle_decode_stream(last, 0, s, m) {
            Some(r) => Some(repeated(last, run as nat) + r),
            None => None::<Seq<i32>>,
        },
{
    let b = rle_run_bytes(run) + s;
    let n = (run + m) as nat;
    lemma_rle_run_roundtrip(last, run, 1, s);
    let t = rle_decode_spec(last, 0, b).unwrap();
    assert(t == (last, rle_run_bytes(run).len() as usize, last, (run - 1) as u32));
    assert(b.subrange(t.1 as int, b.len() as int) =~= s);
    lemma_rle_pending(last, (run - 1) as u32, s, (n - 1) as nat);
    assert((n - 1) as nat - (run - 1) as u32 == m);
    assert(rle_decode_stream(last, 0, b, n) == match rle_decode_stream(last, (run - 1) as u32, s, (n - 1) as nat) {
        Some(rest) => Some(seq![last] + rest),
        None => None::<Seq<i32>>,
    });
    match rle_decode_stream(last, 0, s, m) {
        Some(r) => {
            assert(seq![last] + (repeated(last, (run - 1) as nat) + r) =~= repeated(last, run as nat) + r);
        },
        None => {},
    }
}

/// From a decoder with none pending, a written difference and then the encoder's stream
/// for the values after it decode to the value and those values.
proof fn lemma_rle_value_then(last: i32, vals: Seq<i32>, rest: Seq<u8>)
    requires
        vals.len() > 0,
        rle_decode_stream(vals[0], 0, rle_stream(vals[0], 0, vals.drop_first()) + rest, (vals.len() - 1) as nat)
            == Some(vals.drop_first()),
    ensures
        rle_decode_stream(last, 0, rle_value_bytes(vals[0].wrapping_sub(last))
            + (rle_stream(vals[0], 0, vals.drop_first()) + rest), vals.len()) == Some(vals),
{
    let d = vals[0].wrapping_sub(last);
    let vb = rle_value_bytes(d);
    let after = rle_stream(vals[0], 0, vals.drop_first()) + rest;
    lemma_rle_value_roundtrip(last, vals[0], after);
    let s2 = vb + after;
    assert(s2.subrange(vb.len() as int, s2.len() as int) =~= after);
    let t = rle_decode_spec(last, 0, s2).unwrap();
    assert(t == (vals[0], vb.len() as usize, vals[0], 0u32));
    assert(rle_decode_stream(last, 0, s2, vals.len()) == match rle_decode_stream(vals[0], 0, after, (vals.len() - 1) as nat) {
        Some(rest) => Some(seq![vals[0]] + rest),
        None => None::<Seq<i32>>,
    });
    assert(seq![vals[0]] + vals.drop_first() =~= vals);
}

/// A decoder started from the encoder's last value reads back the `run` repeats the
/// encoder had pending and then, in order, every value the encoder was given, whatever
/// follows the encoded bytes.
pub proof fn lemma_rle_stream_roundtrip(last: i32, run: u32, vals: Seq<i32>, rest: Seq<u8>)
    ensures
        rle_decode_stream(last, 0, rle_stream(last, run, vals) + rest, (run + vals.len()) as nat)
            == Some(repeated(last, run as nat) + vals),
    decreases vals.len(),
{
    if vals.len() == 0 {
        assert(rle_stream(last, run, vals) + rest == rle_run_bytes(run) + rest);
        if run > 0 {
            lemma_rle_run_then(last, run, rest, 0);
        }
        assert(repeated(last, run as nat) + vals =~= repeated(last, run as nat));
        assert(repeated(last, 0) =~= seq![]);
    } else {
        let d = vals[0].wrapping_sub(last);
        let tail = vals.drop_first();
        if d == 0 && run < u32::MAX {
            lemma_rle_stream_roundtrip(last, (run + 1) as u32, tail, rest);
            let v0 = vals[0];
            assert(v0.wrapping_sub(last) == 0 ==> v0 == last) by (bit_vector);
            assert(repeated(last, (run + 1) as nat) + tail =~= repeated(last, run as nat) + vals);
        } else {
            lemma_rle_stream_roundtrip(vals[0], 0, tail, rest);
            assert(repeated(vals[0], 0) + tail =~= tail);
            lemma_rle_value_then(last, vals, rest);
            let s2 = rle_value_bytes(d) + (rle_stream(vals[0], 0, tail) + rest);
            assert(rle_stream(last, run, vals) + rest =~= rle_run_bytes(run) + s2);
            if run > 0 {
                lemma_rle_run_then(last, run, s2, vals.len());
            } else {
                assert(rle_run_bytes(run) + s2 =~= s2);
                assert(repeated(last, 0) + vals =~= vals);
            }
        }
    }
}

} // verus!
