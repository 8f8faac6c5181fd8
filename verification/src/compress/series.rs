use vstd::prelude::*;
use super::stream::{compress_i32, decompress_i32, compress_i64, decompress_i64, compress_i32_bytes,
    compress_i64_bytes, decompress_i32_spec, decompress_i64_spec, lemma_compress_i32_roundtrip,
    lemma_compress_i64_roundtrip};

verus! {

/// Delta encoder for integer series: each value is written as its difference from the one
/// before, ZigZag and LEB128 encoded.
pub struct TimeSeriesEncoder {
    last_value: i32,
}

impl TimeSeriesEncoder {
    /// The last value seen.
    pub closed spec fn state(&self) -> i32 {
        self.last_value
    }

    /// An encoder whose reference value (usually 0) is `initial_value`.
    pub fn new(initial_value: i32) -> (r: Self)
        ensures
            r.state() == initial_value,
    {
        TimeSeriesEncoder { last_value: initial_value }
    }

    /// Writes `current` as its (wrapping) difference from the last value; returns the
    /// bytes written.
    pub fn encode_next(&mut self, current: i32, buf: &mut [u8]) -> (r: usize)
        requires
            compress_i32_bytes(current.wrapping_sub(old(self).state())).len() <= old(buf)@.len(),
        ensures
            final(self).state() == current,
            r == compress_i32_bytes(current.wrapping_sub(old(self).state())).len(),
            final(buf)@ == compress_i32_bytes(current.wrapping_sub(old(self).state()))
                + old(buf)@.subrange(r as int, old(buf)@.len() as int),
    {
        let delta = current.wrapping_sub(self.last_value);
        self.last_value = current;
        compress_i32(delta, buf)
    }

    /// The last value seen.
    pub fn current_state(&self) -> (r: i32)
        ensures
            r == self.state(),
    {
        self.last_value
    }
}

/// Decoder for what `TimeSeriesEncoder` writes.
pub struct TimeSeriesDecoder {
    last_value: i32,
}

impl TimeSeriesDecoder {
    /// The last value decoded.
    pub closed spec fn state(&self) -> i32 {
        self.last_value
    }

    /// A decoder with the encoder's reference value.
    pub fn new(initial_value: i32) -> (r: Self)
        ensures
            r.state() == initial_value,
    {
        TimeSeriesDecoder { last_value: initial_value }
    }

    /// Reads one difference from `buf` and returns the value it leads to and the bytes
    /// read; `None`, with nothing changed, when the bytes are malformed.
    pub fn decode_next(&mut self, buf: &[u8]) -> (r: Option<(i32, usize)>)
        ensures
            match decompress_i32_spec(buf@) {
                Some(p) => {
                    &&& r == Some((old(self).state().wrapping_add(p.0), p.1))
                    &&& final(self).state() == old(self).state().wrapping_add(p.0)
                },
                None => r is None && final(self).state() == old(self).state(),
            },
    {
        match decompress_i32(buf) {
            Some((delta, size)) => {
                let current = self.last_value.wrapping_add(delta);
                self.last_value = current;
                Some((current, size))
            },
            None => None,
        }
    }

    /// The last value decoded.
    pub fn current_state(&self) -> (r: i32)
        ensures
            r == self.state(),
    {
        self.last_value
    }
}

/// A decoder in step with an encoder reads back each value it writes: the difference
/// comes back whole and adding it to the shared last value gives the value.
pub proof fn lemma_time_series_roundtrip(last: i32, current: i32, rest: Seq<u8>)
    ensures
        decompress_i32_spec(compress_i32_bytes(current.wrapping_sub(last)) + rest)
            == Some((current.wrapping_sub(last), compress_i32_bytes(current.wrapping_sub(last)).len() as usize)),
        last.wrapping_add(current.wrapping_sub(last)) == current,
        compress_i32_bytes(current.wrapping_sub(last)).len() <= 5,
{
    lemma_compress_i32_roundtrip(current.wrapping_sub(last), rest);
}

/// Delta-of-delta encoder for timestamps.
pub struct TimestampEncoder {
    last_timestamp: u64,
    last_delta: i64,
}

/// The difference of two timestamps, wrapped and read as signed.
pub open spec fn ts_delta(current: u64, last: u64) -> i64 {
    current.wrapping_sub(last) as i64
}

impl TimestampEncoder {
    /// The last timestamp seen.
    pub closed spec fn timestamp(&self) -> u64 {
        self.last_timestamp
    }

    /// The last difference between timestamps.
    pub closed spec fn delta(&self) -> i64 {
        self.last_delta
    }

    /// An encoder with a reference timestamp and no difference yet.
    pub fn new(initial_timestamp: u64) -> (r: Self)
        ensures
            r.timestamp() == initial_timestamp,
            r.delta() == 0,
    {
        TimestampEncoder { last_timestamp: initial_timestamp, last_delta: 0 }
    }

    /// Writes how the difference to `current` changed from the last difference; returns
    /// the bytes written.
    pub fn encode_next(&mut self, current: u64, buf: &mut [u8]) -> (r: usize)
        requires
            compress_i64_bytes(ts_delta(current, old(self).timestamp()).wrapping_sub(old(self).delta())).len()
                <= old(buf)@.len(),
        ensures
            final(self).timestamp() == current,
            final(self).delta() == ts_delta(current, old(self).timestamp()),
            r == compress_i64_bytes(ts_delta(current, old(self).timestamp()).wrapping_sub(old(self).delta())).len(),
            final(buf)@ == compress_i64_bytes(ts_delta(current, old(self).timestamp()).wrapping_sub(old(self).delta()))
                + old(buf)@.subrange(r as int, old(buf)@.len() as int),
    {
        let current_delta = current.wrapping_sub(self.last_timestamp) as i64;
        let delta_of_delta = current_delta.wrapping_sub(self.last_delta);
        self.last_timestamp = current;
        self.last_delta = current_delta;
        compress_i64(delta_of_delta, buf)
    }

    /// The last timestamp seen.
    pub fn current_state(&self) -> (r: u64)
        ensures
            r == self.timestamp(),
    {
        self.last_timestamp
    }
}

/// Decoder for what `TimestampEncoder` writes.
pub struct TimestampDecoder {
    last_timestamp: u64,
    last_delta: i64,
}

impl TimestampDecoder {
    /// The last timestamp decoded.
    pub closed spec fn timestamp(&self) -> u64 {
        self.last_timestamp
    }

    /// The last difference between timestamps.
    pub closed spec fn delta(&self) -> i64 {
        self.last_delta
    }

    /// A decoder with the encoder's reference timestamp.
    pub fn new(initial_timestamp: u64) -> (r: Self)
        ensures
            r.timestamp() == initial_timestamp,
            r.delta() == 0,
    {
        TimestampDecoder { last_timestamp: initial_timestamp, last_delta: 0 }
    }

    /// Reads one change of difference and returns the timestamp it leads to and the bytes
    /// read; `None`, with nothing changed, when the bytes are malformed.
    pub fn decode_next(&mut self, buf: &[u8]) -> (r: Option<(u64, usize)>)
        ensures
            match decompress_i64_spec(buf@) {
                Some(p) => {
                    let d = old(self).delta().wrapping_add(p.0);
                    let t = old(self).timestamp().wrapping_add(d as u64);
                    &&& r == Some((t, p.1))
                    &&& final(self).timestamp() == t
                    &&& final(self).delta() == d
                },
                None => {
                    &&& r is None
                    &&& final(self).timestamp() == old(self).timestamp()
                    &&& final(self).delta() == old(self).delta()
                },
            },
    {
        match decompress_i64(buf) {
            Some((delta_of_delta, size)) => {
                let current_delta = self.last_delta.wrapping_add(delta_of_delta);
                let current = self.last_timestamp.wrapping_add(current_delta as u64);
                self.last_timestamp = current;
                self.last_delta = current_delta;
                Some((current, size))
            },
            None => None,
        }
    }
}

/// A timestamp decoder in step with an encoder (same timestamp, same difference) reads
/// back each timestamp written, and both end in step again.
pub proof fn lemma_timestamp_roundtrip(last: u64, delta: i64, current: u64, rest: Seq<u8>)
    ensures
        ({
            let d = ts_delta(current, last);
            let dod = d.wrapping_sub(delta);
            &&& decompress_i64_spec(compress_i64_bytes(dod) + rest) == Some((dod, compress_i64_bytes(dod).len() as usize))
            &&& delta.wrapping_add(dod) == d
            &&& last.wrapping_add(d as u64) == current
            &&& compress_i64_bytes(dod).len() <= 10
        }),
{
    let d = ts_delta(current, last);
    let dod = d.wrapping_sub(delta);
    lemma_compress_i64_roundtrip(dod, rest);
    let w = current.wrapping_sub(last);
    assert(((w as i64) as u64) == w) by (bit_vector);
    assert(last.wrapping_add(w) == current);
}

/// The bytes a `TimeSeriesEncoder` starting from `last` writes for `vals`, one after another.
pub open spec fn time_series_stream(last: i32, vals: Seq<i32>) -> Seq<u8>
    decreases vals.len(),
{
    if vals.len() == 0 {
        seq![]
    } else {
        compress_i32_bytes(vals[0].wrapping_sub(last)) + time_series_stream(vals[0], vals.drop_first())
    }
}

/// What `n` calls of `TimeSeriesDecoder::decode_next` starting from `last` read from
/// `bytes`, each call reading from where the one before stopped.
pub open spec fn time_series_decode_stream(last: i32, bytes: Seq<u8>, n: nat) -> Option<Seq<i32>>
    decreases n,
{
    if n == 0 {
        Some(seq![])
    } else {
        match decompress_i32_spec(bytes) {
            None => None,
            Some(p) => {
                let v = last.wrapping_add(p.0);
                match time_series_decode_stream(v, bytes.subrange(p.1 as int, bytes.len() as int), (n - 1) as nat) {
                    Some(rest) => Some(seq![v] + rest),
                    None => None,
                }
            },
        }
    }
}

/// A decoder started from the encoder's reference value reads back, in order, every value
/// the encoder was given, whatever follows the encoded bytes.
pub proof fn lemma_time_series_stream_roundtrip(last: i32, vals: Seq<i32>, rest: Seq<u8>)
    ensures
        time_series_decode_stream(last, time_series_stream(last, vals) + rest, vals.len()) == Some(vals),
    decreases vals.len(),
{
    if vals.len() > 0 {
        let head = compress_i32_bytes(vals[0].wrapping_sub(last));
        let tail = time_series_stream(vals[0], vals.drop_first()) + rest;
        assert(time_series_stream(last, vals) + rest =~= head + tail);
        lemma_time_series_roundtrip(last, vals[0], tail);
        let bytes = head + tail;
        assert(bytes.subrange(head.len() as int, bytes.len() as int) =~= tail);
        lemma_time_series_stream_roundtrip(vals[0], vals.drop_first(), rest);
        assert(seq![vals[0]] + vals.drop_first() =~= vals);
    }
}

/// The bytes a `TimestampEncoder` holding timestamp `last` and difference `delta` writes
/// for `ts`, one after another.
pub open spec fn timestamp_stream(last: u64, delta: i64, ts: Seq<u64>) -> Seq<u8>
    decreases ts.len(),
{
    if ts.len() == 0 {
        seq![]
    } else {
        let d = ts_delta(ts[0], last);
        compress_i64_bytes(d.wrapping_sub(delta)) + timestamp_stream(ts[0], d, ts.drop_first())
    }
}

/// What `n` calls of `TimestampDecoder::decode_next` from timestamp `last` and difference
/// `delta` read from `bytes`, each call reading from where the one before stopped.
pub open spec fn timestamp_decode_stream(last: u64, delta: i64, bytes: Seq<u8>, n: nat) -> Option<Seq<u64>>
    decreases n,
{
    if n == 0 {
        Some(seq![])
    } else {
        match decompress_i64_spec(bytes) {
            None => None,
            Some(p) => {
                let d = delta.wrapping_add(p.0);
                let t = last.wrapping_add(d as u64);
                match timestamp_decode_stream(t, d, bytes.subrange(p.1 as int, bytes.len() as int), (n - 1) as nat) {
                    Some(rest) => Some(seq![t] + rest),
                    None => None,
                }
            },
        }
    }
}

/// A timestamp decoder started in step with the encoder reads back, in order, every
/// timestamp the encoder was given, whatever follows the encoded bytes.
pub proof fn lemma_timestamp_stream_roundtrip(last: u64, delta: i64, ts: Seq<u64>, rest: Seq<u8>)
    ensures
        timestamp_decode_stream(last, delta, timestamp_stream(last, delta, ts) + rest, ts.len()) == Some(ts),
    decreases ts.len(),
{
    if ts.len() > 0 {
        let d = ts_delta(ts[0], last);
        let head = compress_i64_bytes(d.wrapping_sub(delta));
        let tail = timestamp_stream(ts[0], d, ts.drop_first()) + rest;
        assert(timestamp_stream(last, delta, ts) + rest =~= head + tail);
        lemma_timestamp_roundtrip(last, delta, ts[0], tail);
        let bytes = head + tail;
        assert(bytes.subrange(head.len() as int, bytes.len() as int) =~= tail);
        lemma_timestamp_stream_roundtrip(ts[0], d, ts.drop_first(), rest);
        assert(seq![ts[0]] + ts.drop_first() =~= ts);
    }
}

} // verus!
