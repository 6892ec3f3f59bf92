use twpb::iterators::{FixedBuffer, SliceReader};
use twpb::{decoder, encoder};

#[test]
fn test_ints() {
    let mut buffer = FixedBuffer::<100>::new();
    let bytes_written = encoder::sint32(&mut buffer, &-300).unwrap();
    assert_eq!(bytes_written, 2);
    assert_eq!(buffer.as_slice()[0..bytes_written], [0xD7, 4]);
    let result = decoder::sint32(&mut SliceReader::new(buffer.as_slice()), "").unwrap();
    assert_eq!(result, -300);

    let mut buffer = FixedBuffer::<100>::new();
    let bytes_written = encoder::sint64(&mut buffer, &-300).unwrap();
    assert_eq!(bytes_written, 2);
    assert_eq!(buffer.as_slice()[0..bytes_written], [0xD7, 4]);
    let result = decoder::sint64(&mut SliceReader::new(buffer.as_slice()), "").unwrap();
    assert_eq!(result, -300);
}

#[test]
fn test_ints_max() {
    let mut buffer = FixedBuffer::<100>::new();
    let bytes_written = encoder::sint32(&mut buffer, &(0x3F_FF_FF_FF as i32)).unwrap();
    assert_eq!(bytes_written, 5);
    assert_eq!(buffer.as_slice()[0..bytes_written], [0xFE, 0xFF, 0xFF, 0xFF, 7]);
    let result = decoder::sint32(&mut SliceReader::new(buffer.as_slice()), "").unwrap();
    assert_eq!(result, 0x3F_FF_FF_FF as i32);
}

// A varint is cut into chunks of seven bits, and the high bit of each byte
// says whether another follows. A 64-bit number whose very last bit is set
// is the hard case.
#[test]
fn test_ints_encode_correctly_if_msb_set() {
    let mut buffer = FixedBuffer::<100>::new();
    let bytes_written = encoder::uint64(&mut buffer, &(0x80_00_00_00_00_00_00_00)).unwrap();
    assert_eq!(bytes_written, 10);
    assert_eq!(
        buffer.as_slice()[0..bytes_written],
        [0x80, 0x80, 0x80, 0x80, 0x80, 0x80, 0x80, 0x80, 0x80, 0x01]
    );
    let result = decoder::uint64(&mut SliceReader::new(buffer.as_slice()), "").unwrap();
    assert_eq!(result, 0x80_00_00_00_00_00_00_00);

    // the same for a signed number (zigzag)
    let mut buffer = FixedBuffer::<100>::new();
    let bytes_written = encoder::sint64(&mut buffer, &(-0x80_00_00_00_00_00_00_00)).unwrap();
    assert_eq!(bytes_written, 10);
    assert_eq!(
        buffer.as_slice()[0..bytes_written],
        [0xFF, 0xFF, 0xFF, 0xFF, 0xFF, 0xFF, 0xFF, 0xFF, 0xFF, 0x01]
    );
    let result = decoder::sint64(&mut SliceReader::new(buffer.as_slice()), "").unwrap();
    assert_eq!(result, -0x80_00_00_00_00_00_00_00);
}

#[test]
fn test_ints_overflow() {
    let mut buffer = FixedBuffer::<100>::new();
    let bytes_written = encoder::sint64(&mut buffer, &(-9223372036854775808 as i64)).unwrap();
    assert_eq!(bytes_written, 10);
    let result = decoder::sint32(&mut SliceReader::new(buffer.as_slice()), "").unwrap_err();
    assert_eq!(result, decoder::DecodeError::TooLargeVarint);
}

#[test]
fn sint32_round_trips_at_the_ends_of_its_range() {
    for value in [i32::MIN, i32::MIN + 1, -0x4000_0001, -0x4000_0000, -1, 0, 1, 0x4000_0000, i32::MAX] {
        let mut buffer = FixedBuffer::<10>::new();
        let bytes_written = encoder::sint32(&mut buffer, &value).unwrap();
        assert!(bytes_written <= 5);
        let result = decoder::sint32(&mut SliceReader::new(&buffer.as_slice()[0..bytes_written]), "").unwrap();
        assert_eq!(result, value);
    }
    let mut buffer = FixedBuffer::<10>::new();
    let bytes_written = encoder::sint32(&mut buffer, &i32::MIN).unwrap();
    assert_eq!(buffer.as_slice()[0..bytes_written], [0xFF, 0xFF, 0xFF, 0xFF, 0x0F]);
}

#[test]
fn sint64_round_trips_at_the_ends_of_its_range() {
    for value in [i64::MIN, i64::MIN + 1, -1, 0, 1, i64::MAX] {
        let mut buffer = FixedBuffer::<10>::new();
        let bytes_written = encoder::sint64(&mut buffer, &value).unwrap();
        let result = decoder::sint64(&mut SliceReader::new(&buffer.as_slice()[0..bytes_written]), "").unwrap();
        assert_eq!(result, value);
    }
}

#[test]
fn zigzag_maps_small_magnitudes_to_small_numbers() {
    let expected: [(i32, u8); 7] = [(0, 0), (-1, 1), (1, 2), (-2, 3), (2, 4), (-3, 5), (63, 126)];
    for (value, image) in expected {
        let mut buffer = FixedBuffer::<10>::new();
        assert_eq!(encoder::sint32(&mut buffer, &value).unwrap(), 1);
        assert_eq!(buffer.as_slice()[0], image);
    }
}

#[test]
fn int32_negative_takes_ten_bytes_and_round_trips() {
    let mut buffer = FixedBuffer::<100>::new();
    let bytes_written = encoder::int32(&mut buffer, &-69).unwrap();
    assert_eq!(bytes_written, 10);
    assert_eq!(
        buffer.as_slice()[0..bytes_written],
        [0xBB, 0xFF, 0xFF, 0xFF, 0xFF, 0xFF, 0xFF, 0xFF, 0xFF, 0x01]
    );
    let result = decoder::int32(&mut SliceReader::new(buffer.as_slice()), "").unwrap();
    assert_eq!(result, -69);
    for value in [i32::MIN, -1, 0, 1, i32::MAX] {
        let mut buffer = FixedBuffer::<10>::new();
        let n = encoder::int32(&mut buffer, &value).unwrap();
        assert_eq!(decoder::int32(&mut SliceReader::new(&buffer.as_slice()[0..n]), "").unwrap(), value);
    }
}

#[test]
fn int64_and_unsigned_round_trip() {
    for value in [i64::MIN, -69, -1, 0, 1, i64::MAX] {
        let mut buffer = FixedBuffer::<10>::new();
        let n = encoder::int64(&mut buffer, &value).unwrap();
        assert_eq!(decoder::int64(&mut SliceReader::new(&buffer.as_slice()[0..n]), "").unwrap(), value);
    }
    for value in [0u32, 1, 127, 128, 300, u32::MAX] {
        let mut buffer = FixedBuffer::<10>::new();
        let n = encoder::uint32(&mut buffer, &value).unwrap();
        assert_eq!(decoder::uint32(&mut SliceReader::new(&buffer.as_slice()[0..n]), "").unwrap(), value);
    }
    for value in [0u64, 1, 127, 128, 300, u64::MAX] {
        let mut buffer = FixedBuffer::<10>::new();
        let n = encoder::uint64(&mut buffer, &value).unwrap();
        assert_eq!(decoder::uint64(&mut SliceReader::new(&buffer.as_slice()[0..n]), "").unwrap(), value);
    }
}

#[test]
fn int32_out_of_range_is_refused() {
    // 2^31, one more than the largest i32
    let result = decoder::int32(&mut SliceReader::new(&[0x80, 0x80, 0x80, 0x80, 0x08]), "").unwrap_err();
    assert_eq!(result, decoder::DecodeError::TooLargeVarint);
    let result = decoder::uint32(&mut SliceReader::new(&[0x80, 0x80, 0x80, 0x80, 0x10]), "").unwrap_err();
    assert_eq!(result, decoder::DecodeError::TooLargeVarint);
}

#[test]
fn fixed_width_numbers_are_little_endian() {
    let mut buffer = FixedBuffer::<16>::new();
    assert_eq!(encoder::fixed32(&mut buffer, &0x0403_0201).unwrap(), 4);
    assert_eq!(buffer.as_slice()[0..4], [1, 2, 3, 4]);
    assert_eq!(decoder::fixed32(&mut SliceReader::new(buffer.as_slice()), "").unwrap(), 0x0403_0201);

    let mut buffer = FixedBuffer::<16>::new();
    assert_eq!(encoder::fixed64(&mut buffer, &0x0807_0605_0403_0201).unwrap(), 8);
    assert_eq!(buffer.as_slice()[0..8], [1, 2, 3, 4, 5, 6, 7, 8]);
    assert_eq!(
        decoder::fixed64(&mut SliceReader::new(buffer.as_slice()), "").unwrap(),
        0x0807_0605_0403_0201
    );

    let mut buffer = FixedBuffer::<16>::new();
    assert_eq!(encoder::sfixed32(&mut buffer, &-69).unwrap(), 4);
    assert_eq!(buffer.as_slice()[0..4], [0xBB, 0xFF, 0xFF, 0xFF]);
    assert_eq!(decoder::sfixed32(&mut SliceReader::new(buffer.as_slice()), "").unwrap(), -69);

    let mut buffer = FixedBuffer::<16>::new();
    assert_eq!(encoder::sfixed64(&mut buffer, &(i64::MIN + 1)).unwrap(), 8);
    assert_eq!(buffer.as_slice()[0..8], [1, 0, 0, 0, 0, 0, 0, 0x80]);
    assert_eq!(decoder::sfixed64(&mut SliceReader::new(buffer.as_slice()), "").unwrap(), i64::MIN + 1);
}

#[test]
fn fixed_width_numbers_tell_nothing_from_too_little() {
    assert_eq!(
        decoder::fixed32(&mut SliceReader::new(&[]), "").unwrap_err(),
        decoder::DecodeError::EmptyBuffer
    );
    assert_eq!(
        decoder::fixed32(&mut SliceReader::new(&[1, 2, 3]), "").unwrap_err(),
        decoder::DecodeError::UnexpectedEndOfBuffer
    );
    assert_eq!(
        decoder::fixed64(&mut SliceReader::new(&[]), "").unwrap_err(),
        decoder::DecodeError::EmptyBuffer
    );
    assert_eq!(
        decoder::sfixed64(&mut SliceReader::new(&[1, 2, 3, 4, 5, 6, 7]), "").unwrap_err(),
        decoder::DecodeError::UnexpectedEndOfBuffer
    );
}

#[test]
fn float_bits_round_trip_through_fixed_width() {
    for value in [0.0f32, -0.0, 1.0, 3.1415926535, f32::INFINITY, f32::NAN, f32::MIN_POSITIVE] {
        let mut buffer = FixedBuffer::<4>::new();
        encoder::fixed32(&mut buffer, &value.to_bits()).unwrap();
        let bits = decoder::fixed32(&mut SliceReader::new(buffer.as_slice()), "").unwrap();
        assert_eq!(bits, value.to_bits());
    }
    for value in [0.0f64, -0.0, 1.0, 3.1415926535, f64::NEG_INFINITY, f64::NAN] {
        let mut buffer = FixedBuffer::<8>::new();
        encoder::fixed64(&mut buffer, &value.to_bits()).unwrap();
        let bits = decoder::fixed64(&mut SliceReader::new(buffer.as_slice()), "").unwrap();
        assert_eq!(bits, value.to_bits());
    }
    let mut buffer = FixedBuffer::<8>::new();
    encoder::fixed64(&mut buffer, &1.0f64.to_bits()).unwrap();
    assert_eq!(buffer.as_slice()[0..8], [0x00, 0x00, 0x00, 0x00, 0x00, 0x00, 0xF0, 0x3F]);
}

#[test]
fn bool_is_one_canonical_byte_and_reads_leniently() {
    let mut buffer = FixedBuffer::<2>::new();
    assert_eq!(encoder::bool(&mut buffer, &true).unwrap(), 1);
    assert_eq!(encoder::bool(&mut buffer, &false).unwrap(), 1);
    assert_eq!(buffer.as_slice()[0..2], [1, 0]);
    assert_eq!(decoder::bool(&mut SliceReader::new(&[1]), "").unwrap(), true);
    assert_eq!(decoder::bool(&mut SliceReader::new(&[0]), "").unwrap(), false);
    assert_eq!(decoder::bool(&mut SliceReader::new(&[3]), "").unwrap(), true);
    assert_eq!(decoder::bool(&mut SliceReader::new(&[0xFE]), "").unwrap(), false);
    assert_eq!(
        decoder::bool(&mut SliceReader::new(&[]), "").unwrap_err(),
        decoder::DecodeError::EmptyBuffer
    );
}
