use no_std_tool::compress::leb128::{leb128_decode_u32, leb128_decode_u64, leb128_encode_u32, leb128_encode_u64};
use no_std_tool::compress::rle::{RleTimeSeriesDecoder, RleTimeSeriesEncoder};
use no_std_tool::compress::series::{TimeSeriesDecoder, TimeSeriesEncoder, TimestampDecoder, TimestampEncoder};
use no_std_tool::compress::stream::{compress_i32, compress_i64, decompress_i32, decompress_i64};
use no_std_tool::compress::zigzag::{zigzag_decode_u32, zigzag_decode_u64, zigzag_encode_i32, zigzag_encode_i64};

#[test]
fn test_zigzag_32() {
    assert_eq!(zigzag_encode_i32(0), 0);
    assert_eq!(zigzag_encode_i32(-1), 1);
    assert_eq!(zigzag_encode_i32(1), 2);
    assert_eq!(zigzag_encode_i32(-2), 3);
    assert_eq!(zigzag_encode_i32(2), 4);
    assert_eq!(zigzag_encode_i32(i32::MAX), u32::MAX - 1);
    assert_eq!(zigzag_encode_i32(i32::MIN), u32::MAX);

    assert_eq!(zigzag_decode_u32(0), 0);
    assert_eq!(zigzag_decode_u32(1), -1);
    assert_eq!(zigzag_decode_u32(2), 1);
    assert_eq!(zigzag_decode_u32(3), -2);
    assert_eq!(zigzag_decode_u32(u32::MAX - 1), i32::MAX);
    assert_eq!(zigzag_decode_u32(u32::MAX), i32::MIN);
}

#[test]
fn test_leb128_32() {
    let mut buf = [0u8; 5];

    let size = leb128_encode_u32(0, &mut buf);
    assert_eq!(size, 1);
    assert_eq!(buf[0], 0x00);
    assert_eq!(leb128_decode_u32(&buf).unwrap(), (0, 1));

    let size = leb128_encode_u32(127, &mut buf);
    assert_eq!(size, 1);
    assert_eq!(buf[0], 0x7F);
    assert_eq!(leb128_decode_u32(&buf).unwrap(), (127, 1));

    let size = leb128_encode_u32(128, &mut buf);
    assert_eq!(size, 2);
    assert_eq!(buf[0..2], [0x80, 0x01]);
    assert_eq!(leb128_decode_u32(&buf).unwrap(), (128, 2));

    let size = leb128_encode_u32(u32::MAX, &mut buf);
    assert_eq!(size, 5);
    assert_eq!(leb128_decode_u32(&buf).unwrap(), (u32::MAX, 5));
}

#[test]
fn test_compress_decompress_i32() {
    let mut buf = [0u8; 5];
    let values = [0, -1, 1, 64, -64, 127, -127, 128, -128, 10000, -10000, i32::MAX, i32::MIN];

    for &v in &values {
        let size = compress_i32(v, &mut buf);
        let (decoded, read_size) = decompress_i32(&buf).unwrap();
        assert_eq!(v, decoded);
        assert_eq!(size, read_size);
    }
}

#[test]
fn test_time_series_encoder() {
    let n = core::hint::black_box(100);

    let mut encoder = TimeSeriesEncoder::new(20);
    let mut decoder = TimeSeriesDecoder::new(20);
    let mut buf = [0u8; 10];

    let sequence = [20, 21, 22, 23, 23, 23, 24];
    for &val in &sequence {
        let val = core::hint::black_box(val);
        let size = encoder.encode_next(val, &mut buf);
        let (decoded, read_size) = decoder.decode_next(&buf).unwrap();
        assert_eq!(val, decoded);
        assert_eq!(size, read_size);
        assert_eq!(size, 1);
    }

    for i in 0..n {
        let val = core::hint::black_box(24 + i);
        let size = encoder.encode_next(val, &mut buf);
        let (decoded, read_size) = decoder.decode_next(&buf).unwrap();
        assert_eq!(val, decoded);
        assert_eq!(size, read_size);
    }

    let spike_val = core::hint::black_box(105);
    let size = encoder.encode_next(spike_val, &mut buf);
    let (decoded, read_size) = decoder.decode_next(&buf).unwrap();
    assert_eq!(spike_val, decoded);
    assert_eq!(size, read_size);

    let val = core::hint::black_box(106);
    let size = encoder.encode_next(val, &mut buf);
    let (decoded, read_size) = decoder.decode_next(&buf).unwrap();
    assert_eq!(val, decoded);
    assert_eq!(size, read_size);
}

#[test]
fn test_timestamp_encoder() {
    let mut encoder = TimestampEncoder::new(1600000000);
    let mut decoder = TimestampDecoder::new(1600000000);
    let mut buf = [0u8; 10];

    let sequence = [1600000100, 1600000200, 1600000300, 1600000401, 1600000499];

    for &val in &sequence {
        let size = encoder.encode_next(val, &mut buf);
        let (decoded, read_size) = decoder.decode_next(&buf).unwrap();
        assert_eq!(val, decoded);
        assert_eq!(size, read_size);
        assert!(size <= 2);
    }
}

#[test]
fn test_rle_time_series_encoder() {
    let mut encoder = RleTimeSeriesEncoder::new(20);
    let mut decoder = RleTimeSeriesDecoder::new(20);
    let mut buf = vec![0u8; 1024];
    let mut written_size = 0;

    let sequence = [20, 20, 20, 20, 20, 21, 21, 21, 21, 25];

    for &val in &sequence {
        written_size += encoder.encode_next(val, &mut buf[written_size..]);
    }
    written_size += encoder.flush(&mut buf[written_size..]);
    buf.truncate(written_size);

    assert_eq!(written_size, 6);

    let mut offset = 0;
    let mut decoded_seq = Vec::new();
    while decoded_seq.len() < sequence.len() {
        let (val, read_bytes) = decoder.decode_next(&buf[offset..]).unwrap();
        decoded_seq.push(val);
        offset += read_bytes;
    }

    assert_eq!(sequence.to_vec(), decoded_seq);
}

#[test]
fn zigzag_64_and_leb128_64_exact_values() {
    assert_eq!(zigzag_encode_i64(0), 0);
    assert_eq!(zigzag_encode_i64(-3), 5);
    assert_eq!(zigzag_encode_i64(i64::MAX), u64::MAX - 1);
    assert_eq!(zigzag_encode_i64(i64::MIN), u64::MAX);
    assert_eq!(zigzag_decode_u64(5), -3);
    assert_eq!(zigzag_decode_u64(u64::MAX), i64::MIN);

    let mut buf = [0u8; 10];
    assert_eq!(leb128_encode_u64(300, &mut buf), 2);
    assert_eq!(buf[0..2], [0xAC, 0x02]);
    assert_eq!(leb128_decode_u64(&buf), Some((300, 2)));
    assert_eq!(leb128_encode_u64(u64::MAX, &mut buf), 10);
    assert_eq!(buf[9], 0x01);
    assert_eq!(leb128_decode_u64(&buf), Some((u64::MAX, 10)));
}

#[test]
fn zigzag_roundtrips_both_ways() {
    for v in [-100_000, -2, -1, 0, 1, 2, 99_999, i32::MIN, i32::MAX] {
        assert_eq!(zigzag_decode_u32(zigzag_encode_i32(v)), v);
    }
    for z in [0u32, 1, 2, 3, 1000, u32::MAX - 1, u32::MAX] {
        assert_eq!(zigzag_encode_i32(zigzag_decode_u32(z)), z);
    }
}

#[test]
fn leb128_decode_rejects_unterminated_input() {
    // five continuation bytes: nothing ends within the first five
    assert_eq!(leb128_decode_u32(&[0x80, 0x80, 0x80, 0x80, 0x80, 0x00]), None);
    // the buffer runs out
    assert_eq!(leb128_decode_u32(&[0x80, 0x80]), None);
    assert_eq!(leb128_decode_u32(&[]), None);
    assert_eq!(leb128_decode_u64(&[0xFF; 10]), None);
    // bits past 32 are dropped
    assert_eq!(leb128_decode_u32(&[0xFF, 0xFF, 0xFF, 0xFF, 0x7F]), Some((u32::MAX, 5)));
    assert_eq!(leb128_decode_u32(&[0x80, 0x80, 0x80, 0x80, 0x10]), Some((0, 5)));
}

#[test]
fn leb128_encode_keeps_the_rest_of_the_buffer() {
    let mut buf = [0xEEu8; 6];
    assert_eq!(leb128_encode_u32(128, &mut buf), 2);
    assert_eq!(buf, [0x80, 0x01, 0xEE, 0xEE, 0xEE, 0xEE]);
}

#[test]
fn compress_i64_roundtrip_and_malformed() {
    let mut buf = [0u8; 10];
    for v in [0i64, -1, 1, 1 << 40, -(1 << 40), i64::MAX, i64::MIN] {
        let n = compress_i64(v, &mut buf);
        assert_eq!(decompress_i64(&buf), Some((v, n)));
    }
    assert_eq!(decompress_i32(&[0x80]), None);
    assert_eq!(decompress_i64(&[]), None);
}

#[test]
fn time_series_decoder_keeps_state_on_malformed_input() {
    let mut decoder = TimeSeriesDecoder::new(7);
    assert_eq!(decoder.decode_next(&[0x80]), None);
    assert_eq!(decoder.current_state(), 7);
    // delta +3 is zigzag 6
    assert_eq!(decoder.decode_next(&[6]), Some((10, 1)));
    assert_eq!(decoder.current_state(), 10);
}

#[test]
fn time_series_encoder_wraps_the_difference() {
    let mut encoder = TimeSeriesEncoder::new(i32::MAX);
    let mut decoder = TimeSeriesDecoder::new(i32::MAX);
    let mut buf = [0u8; 5];
    let n = encoder.encode_next(i32::MIN, &mut buf);
    // i32::MIN - i32::MAX wraps to 1, zigzag 2
    assert_eq!(n, 1);
    assert_eq!(buf[0], 2);
    assert_eq!(decoder.decode_next(&buf), Some((i32::MIN, 1)));
    assert_eq!(encoder.current_state(), i32::MIN);
}

#[test]
fn timestamp_first_difference_is_written_whole() {
    let mut encoder = TimestampEncoder::new(1000);
    let mut buf = [0u8; 10];
    // difference 100 against a last difference of 0: zigzag 200 = [0xC8, 0x01]
    assert_eq!(encoder.encode_next(1100, &mut buf), 2);
    assert_eq!(buf[0..2], [0xC8, 0x01]);
    assert_eq!(encoder.current_state(), 1100);
    // same difference again: delta of delta 0
    assert_eq!(encoder.encode_next(1200, &mut buf), 1);
    assert_eq!(buf[0], 0);
}

#[test]
fn rle_run_bytes_and_decoder_repeats() {
    let mut encoder = RleTimeSeriesEncoder::new(5);
    let mut buf = [0u8; 16];
    assert_eq!(encoder.encode_next(5, &mut buf), 0);
    assert_eq!(encoder.encode_next(5, &mut buf), 0);
    assert_eq!(encoder.encode_next(5, &mut buf), 0);
    // the run of three, then the difference +1 (zigzag 2, plus one)
    let n = encoder.encode_next(6, &mut buf);
    assert_eq!(n, 3);
    assert_eq!(buf[0..3], [0, 3, 3]);
    assert_eq!(encoder.flush(&mut buf[3..]), 0);

    let mut decoder = RleTimeSeriesDecoder::new(5);
    assert_eq!(decoder.decode_next(&buf), Some((5, 2)));
    assert_eq!(decoder.decode_next(&buf[2..]), Some((5, 0)));
    assert_eq!(decoder.decode_next(&buf[2..]), Some((5, 0)));
    assert_eq!(decoder.decode_next(&buf[2..]), Some((6, 1)));
    // escape without a count
    assert_eq!(decoder.decode_next(&[0]), None);
}

#[test]
fn rle_i32_min_difference_keeps_clear_of_the_escape() {
    // ZigZag(i32::MIN) is u32::MAX; plus one is 2^32, written in five bytes, never 0.
    let mut encoder = RleTimeSeriesEncoder::new(0);
    let mut buf = [0u8; 16];
    assert_eq!(encoder.encode_next(0, &mut buf), 0);
    let n = encoder.encode_next(i32::MIN, &mut buf);
    // the run of one (0, 1), then the code in five bytes
    assert_eq!(n, 7);
    assert_eq!(buf[0..7], [0, 1, 0x80, 0x80, 0x80, 0x80, 0x10]);
    let mut decoder = RleTimeSeriesDecoder::new(0);
    let (v, r1) = decoder.decode_next(&buf[..n]).unwrap();
    assert_eq!(v, 0);
    let (v, r2) = decoder.decode_next(&buf[r1..n]).unwrap();
    assert_eq!(v, i32::MIN);
    assert_eq!(r1 + r2, n);
}

#[test]
fn timestamp_stream_decodes_after_the_whole_write() {
    let start = 1_700_000_000u64;
    let stamps = [1_700_000_010u64, 1_700_000_020, 1_700_000_020, 1_699_999_990, u64::MAX, 3];
    let mut encoder = TimestampEncoder::new(start);
    let mut buf = vec![0u8; 128];
    let mut written = 0;
    for &t in &stamps {
        written += encoder.encode_next(t, &mut buf[written..]);
    }
    // trailing bytes do not disturb the decoder
    buf[written] = 0xff;
    let mut decoder = TimestampDecoder::new(start);
    let mut offset = 0;
    let mut out = Vec::new();
    for _ in 0..stamps.len() {
        let (t, n) = decoder.decode_next(&buf[offset..]).unwrap();
        out.push(t);
        offset += n;
    }
    assert_eq!(out, stamps.to_vec());
    assert_eq!(offset, written);
}

#[test]
fn rle_stream_with_runs_between_changes_decodes_in_order() {
    let vals = [7, 7, -3, -3, -3, -3, 100, 100, 7, 7, 7];
    let mut encoder = RleTimeSeriesEncoder::new(7);
    let mut buf = vec![0u8; 128];
    let mut written = 0;
    for &v in &vals {
        written += encoder.encode_next(v, &mut buf[written..]);
    }
    written += encoder.flush(&mut buf[written..]);
    // run of 2, -10, run of 3, +103, run of 1, -93, run of 2
    assert_eq!(written, 2 + 1 + 2 + 2 + 2 + 2 + 2);
    let mut decoder = RleTimeSeriesDecoder::new(7);
    let mut offset = 0;
    let mut out = Vec::new();
    for _ in 0..vals.len() {
        let (v, n) = decoder.decode_next(&buf[offset..written]).unwrap();
        out.push(v);
        offset += n;
    }
    assert_eq!(out, vals.to_vec());
    assert_eq!(offset, written);
}

#[test]
fn rle_code_longer_than_five_bytes_is_malformed() {
    let mut decoder = RleTimeSeriesDecoder::new(5);
    assert_eq!(decoder.decode_next(&[0x80, 0x80, 0x80, 0x80, 0x80, 0x01]), None);
    // the same value in five bytes decodes: 2^28 is a difference of zigzag 2^28 - 1
    assert_eq!(decoder.decode_next(&[0x80, 0x80, 0x80, 0x80, 0x01]).map(|t| t.1), Some(5));
}

#[test]
fn leb128_length_is_the_least_count_of_seven_bit_groups() {
    let mut buf = [0u8; 10];
    assert_eq!(leb128_encode_u64(0, &mut buf), 1);
    assert_eq!(leb128_encode_u64(127, &mut buf), 1);
    assert_eq!(leb128_encode_u64(128, &mut buf), 2);
    assert_eq!(leb128_encode_u64(16383, &mut buf), 2);
    assert_eq!(leb128_encode_u64(16384, &mut buf), 3);
    assert_eq!(leb128_encode_u64(u64::MAX, &mut buf), 10);
}
