use dash::bits::{BitReader, BitWriter};
use dash::gorilla::{ChunkDecoder, ChunkEncoder, EncodeError};

fn assert_roundtrip(points: &[(i64, f64)]) -> ChunkEncoder {
    let mut encoder = ChunkEncoder::new();
    for &(timestamp, value) in points {
        encoder.append(timestamp, value.to_bits()).unwrap();
    }
    let decoded: Vec<_> = ChunkDecoder::new(encoder.as_bytes(), encoder.num_points()).collect();
    assert_eq!(decoded.len(), points.len());
    for ((actual_ts, actual_value), (expected_ts, expected_value)) in decoded.iter().zip(points) {
        assert_eq!(actual_ts, expected_ts);
        assert_eq!(*actual_value, expected_value.to_bits());
    }
    encoder
}

#[test]
fn bit_reader_mirrors_writer() {
    let mut writer = BitWriter::new();
    writer.write_bit(true);
    writer.write_bits(0b0101, 4);
    writer.write_bits(u64::MAX, 64);
    let mut reader = BitReader::new(writer.as_bytes());
    assert_eq!(reader.read_bit(), Some(true));
    assert_eq!(reader.read_bits(4), Some(0b0101));
    assert_eq!(reader.read_bits(64), Some(u64::MAX));
}

#[test]
fn fixed_interval_sine_roundtrip() {
    let points: Vec<_> = (0..10_000)
        .map(|index| {
            let timestamp = 1_700_000_000_000 + index * 10_000;
            let value = f64::from((100.0 + ((index as f64) / 100.0).sin()) as f32);
            (timestamp, value)
        })
        .collect();
    assert_roundtrip(&points);
}

#[test]
fn jittered_random_walk_roundtrip() {
    let mut state = 0x4d59_5df4_d0f3_3173_u64;
    let mut timestamp = 1_700_000_000_000_i64;
    let mut value = 0.0;
    let mut points = Vec::with_capacity(10_000);
    for _ in 0..10_000 {
        state ^= state << 13;
        state ^= state >> 7;
        state ^= state << 17;
        timestamp += 900 + (state % 201) as i64;
        value += ((state >> 32) as i32 as f64) / i32::MAX as f64;
        points.push((timestamp, value));
    }
    assert_roundtrip(&points);
}

#[test]
fn constant_values_use_zero_xor_path() {
    let points: Vec<_> = (0..1_000)
        .map(|index| (10_000 + index * 1_000, -42.25))
        .collect();
    let encoder = assert_roundtrip(&points);
    assert!(encoder.byte_size() < 300);
}

#[test]
fn alternating_extreme_values_rewrite_windows() {
    let values = [
        f64::from_bits(1),
        f64::MAX,
        -f64::MAX,
        f64::MIN_POSITIVE,
        -f64::MIN_POSITIVE,
        f64::from_bits(0x000f_ffff_ffff_ffff),
    ];
    let points: Vec<_> = (0..1_000)
        .map(|index| (index as i64 + 1, values[index % values.len()]))
        .collect();
    assert_roundtrip(&points);
}

#[test]
fn special_finite_value_bits_roundtrip() {
    let values = [
        0.0,
        -0.0,
        -1.5,
        f64::MAX,
        -f64::MAX,
        f64::MIN_POSITIVE,
        -f64::MIN_POSITIVE,
        f64::from_bits(1),
        f64::from_bits(0x8000_0000_0000_0001),
    ];
    let points: Vec<_> = values
        .into_iter()
        .enumerate()
        .map(|(index, value)| (1_000 + index as i64, value))
        .collect();
    assert_roundtrip(&points);
}

#[test]
fn leading_zero_count_is_clamped_to_five_bits() {
    assert_roundtrip(&[(1, 0.0), (2, f64::from_bits(1))]);
}

#[test]
fn timestamp_delta_bucket_boundaries_roundtrip() {
    let delta_of_deltas = [
        0, -63, 64, -64, 65, -255, 256, -256, 257, -2047, 2048, -2048, 2049, -100_000, 100_000,
    ];
    let mut timestamp = 1_700_000_000_000_i64;
    let mut delta = 200_000_i64;
    let mut points = vec![(timestamp, 1.0)];
    for (index, delta_of_delta) in delta_of_deltas.into_iter().enumerate() {
        delta += delta_of_delta;
        timestamp += delta;
        points.push((timestamp, index as f64 + 2.0));
    }
    assert_roundtrip(&points);
}

#[test]
fn single_point_roundtrip_and_accessors() {
    let encoder = assert_roundtrip(&[(-123, -0.0)]);
    assert_eq!(encoder.num_points(), 1);
    assert_eq!(encoder.first_ts(), Some(-123));
    assert_eq!(encoder.last_ts(), Some(-123));
    assert_eq!(encoder.last_value().unwrap(), (-0.0_f64).to_bits());
    assert_eq!(encoder.byte_size(), 16);
    assert_eq!(encoder.bytes(), encoder.clone().into_bytes());
}

#[test]
fn rejects_non_increasing_timestamps_without_mutation() {
    let mut encoder = ChunkEncoder::new();
    encoder.append(100, 1.0_f64.to_bits()).unwrap();
    let bytes = encoder.bytes();
    assert_eq!(
        encoder.append(100, 2.0_f64.to_bits()),
        Err(EncodeError::TimestampNotIncreasing)
    );
    assert_eq!(
        encoder.append(99, 2.0_f64.to_bits()),
        Err(EncodeError::TimestampNotIncreasing)
    );
    assert_eq!(encoder.num_points(), 1);
    assert_eq!(encoder.as_bytes(), bytes);
}

#[test]
fn fixed_interval_sine_compression_is_under_four_bytes_per_point() {
    let points: Vec<_> = (0..10_000)
        .map(|index| {
            let timestamp = 1_700_000_000_000 + index * 10_000;
            let value = f64::from((100.0 + ((index as f64) / 100.0).sin()) as f32);
            (timestamp, value)
        })
        .collect();
    let encoder = assert_roundtrip(&points);
    assert!(
        encoder.byte_size() < points.len() * 4,
        "{} bytes",
        encoder.byte_size()
    );
}

#[test]
fn bits_fill_bytes_from_the_top() {
    let mut writer = BitWriter::new();
    writer.write_bits(0b101, 3);
    writer.write_bits(0b1_1111_0000, 9);
    assert_eq!(writer.as_bytes(), &[0b1011_1111, 0b0000_0000]);
    writer.write_bit(true);
    assert_eq!(writer.into_bytes(), vec![0b1011_1111, 0b0000_1000]);
}

#[test]
fn reading_past_the_end_gives_nothing() {
    let bytes = [0xa5_u8];
    let mut reader = BitReader::new(&bytes);
    assert_eq!(reader.read_bits(9), None);
    assert_eq!(reader.read_bits(0), Some(0));
    assert_eq!(reader.read_bits(8), Some(0xa5));
    assert_eq!(reader.read_bit(), None);
}

#[test]
fn only_the_low_bits_of_a_field_are_written() {
    let mut writer = BitWriter::default();
    writer.write_bits(0xff0f, 8);
    assert_eq!(writer.as_bytes(), &[0x0f]);
}

#[test]
fn empty_chunk_has_no_points() {
    let encoder = ChunkEncoder::default();
    assert_eq!(encoder.num_points(), 0);
    assert_eq!(encoder.byte_size(), 0);
    assert_eq!(encoder.first_ts(), None);
    assert_eq!(encoder.last_ts(), None);
    assert_eq!(encoder.last_value(), None);
    assert!(ChunkDecoder::new(&[], 0).collect().is_empty());
}

#[test]
fn first_point_is_written_in_full() {
    let mut encoder = ChunkEncoder::new();
    encoder.append(1, 2).unwrap();
    assert_eq!(
        encoder.as_bytes(),
        &[0, 0, 0, 0, 0, 0, 0, 1, 0, 0, 0, 0, 0, 0, 0, 2]
    );
    // An unchanged delta is not to be had yet, so the second point writes one.
    encoder.append(2, 2).unwrap();
    assert_eq!(encoder.byte_size(), 18);
    // The third point keeps delta and value: one bit for each.
    encoder.append(3, 2).unwrap();
    assert_eq!(encoder.byte_size(), 18);
}

#[test]
fn deltas_that_do_not_fit_are_refused() {
    let mut encoder = ChunkEncoder::new();
    encoder.append(i64::MIN, 0).unwrap();
    let before = encoder.bytes();
    assert_eq!(
        encoder.append(i64::MAX, 0),
        Err(EncodeError::TimestampDeltaOutOfRange)
    );
    assert_eq!(encoder.bytes(), before);
    assert_eq!(encoder.num_points(), 1);
}

#[test]
fn fewer_points_can_be_read_than_were_written() {
    let mut encoder = ChunkEncoder::new();
    encoder.append(10, 1).unwrap();
    encoder.append(20, 2).unwrap();
    encoder.append(40, 3).unwrap();
    let two = ChunkDecoder::new(encoder.as_bytes(), 2).collect();
    assert_eq!(two, vec![(10, 1), (20, 2)]);
}

#[test]
fn decoding_stops_where_the_bytes_end() {
    let mut encoder = ChunkEncoder::new();
    encoder.append(10, 1).unwrap();
    encoder.append(20, 2).unwrap();
    let bytes = encoder.into_bytes();
    let mut decoder = ChunkDecoder::new(&bytes[..17], 2);
    assert_eq!(decoder.size_hint(), (2, Some(2)));
    assert_eq!(decoder.next(), Some((10, 1)));
    assert_eq!(decoder.size_hint(), (1, Some(1)));
    assert_eq!(decoder.next(), None);
    assert_eq!(decoder.size_hint(), (0, Some(0)));
    assert_eq!(decoder.next(), None);
}
