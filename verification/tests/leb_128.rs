use twpb::iterators::{FixedBuffer, NullCounterBuffer, SliceReader};
use twpb::traits::{Reader, WriterError};
use twpb::{decoder, encoder};

#[test]
fn test_leb128_decode() {
    // the value 300
    let val = decoder::leb128_u32(&mut SliceReader::new(&[0xAC, 0x02])).unwrap();
    assert_eq!(val, 300);

    let val = decoder::leb128_i32(&mut SliceReader::new(&[
        0xBB, 0xFF, 0xFF, 0xFF, 0xFF, 0xFF, 0xFF, 0xFF, 0xFF, 0xFF, 0x01,
    ]))
    .unwrap();
    assert_eq!(val, -69);

    let val = decoder::leb128_i64(&mut SliceReader::new(&[
        0x80, 0x80, 0x80, 0x80, 0x80, 0x80, 0x80, 0x80, 0x80, 0x01,
    ]))
    .unwrap();
    assert_eq!(val, i64::MIN);
}

#[test]
fn test_leb128_decode_overflows() {
    // i64::MIN
    let result = decoder::leb128_i32(&mut SliceReader::new(&[
        0x80, 0x80, 0x80, 0x80, 0x80, 0x80, 0x80, 0x80, 0x80, 0x01,
    ]))
    .unwrap_err();
    assert_eq!(result, decoder::DecodeError::TooLargeVarint);
    let result = decoder::leb128_u32(&mut SliceReader::new(&[
        0x80, 0x80, 0x80, 0x80, 0x80, 0x80, 0x80, 0x80, 0x80, 0x01,
    ]))
    .unwrap_err();
    assert_eq!(result, decoder::DecodeError::TooLargeVarint);
}

#[test]
fn test_leb128_encode() {
    let mut buffer = FixedBuffer::<100>::new();
    let bytes_written = encoder::leb128(&mut buffer, &300).unwrap();
    assert_eq!(bytes_written, 2);
    assert_eq!(buffer.as_slice()[0..bytes_written], [0xAC, 0x02]);
}

#[test]
fn test_leb128_encode_overflows() {
    let mut buffer = FixedBuffer::<100>::new();
    encoder::leb128(&mut buffer, &u64::MAX).unwrap();
    let val = decoder::leb128(&mut SliceReader::new(buffer.as_slice())).unwrap();
    assert_eq!(val, u64::MAX);

    let mut buffer = FixedBuffer::<100>::new();
    encoder::leb128_i64(&mut buffer, &i64::MAX).unwrap();
    let val = decoder::leb128_i64(&mut SliceReader::new(buffer.as_slice())).unwrap();
    assert_eq!(val, i64::MAX);

    let mut buffer = FixedBuffer::<100>::new();
    encoder::leb128_i32(&mut buffer, &i32::MIN).unwrap();
    let val = decoder::leb128_i32(&mut SliceReader::new(buffer.as_slice())).unwrap();
    assert_eq!(val, i32::MIN);

    let mut buffer = FixedBuffer::<100>::new();
    encoder::leb128(&mut buffer, &300).unwrap();
    let val = decoder::leb128(&mut SliceReader::new(buffer.as_slice())).unwrap();
    assert_eq!(val, 300);
}

#[test]
fn varint_decode_of_300() {
    let mut reader = SliceReader::new(&[0xAC, 0x02, 0x55]);
    assert_eq!(decoder::leb128(&mut reader).unwrap(), 300);
    // the decoder stops where the varint ends
    assert_eq!(reader.next(), Some(0x55));
}

#[test]
fn varint_lengths_at_the_seven_bit_boundaries() {
    let cases: [(u64, usize); 8] = [
        (0, 1),
        (127, 1),
        (128, 2),
        (16383, 2),
        (16384, 3),
        (0x7FFF_FFFF_FFFF_FFFF, 9),
        (0x8000_0000_0000_0000, 10),
        (u64::MAX, 10),
    ];
    for (value, length) in cases {
        let mut buffer = FixedBuffer::<10>::new();
        assert_eq!(encoder::leb128(&mut buffer, &value).unwrap(), length);
        let mut reader = SliceReader::new(&buffer.as_slice()[0..length]);
        assert_eq!(decoder::leb128(&mut reader).unwrap(), value);
        assert_eq!(reader.next(), None);
    }
}

#[test]
fn varint_of_nothing_is_an_empty_buffer() {
    assert_eq!(
        decoder::leb128(&mut SliceReader::new(&[])).unwrap_err(),
        decoder::DecodeError::EmptyBuffer
    );
}

#[test]
fn varint_that_ends_early_is_an_unexpected_end() {
    assert_eq!(
        decoder::leb128(&mut SliceReader::new(&[0x80])).unwrap_err(),
        decoder::DecodeError::UnexpectedEndOfBuffer
    );
    assert_eq!(
        decoder::leb128(&mut SliceReader::new(&[0xFF; 11])).unwrap_err(),
        decoder::DecodeError::UnexpectedEndOfBuffer
    );
}

#[test]
fn varint_eleventh_byte_must_be_one() {
    let mut bytes = [0x80u8; 11];
    bytes[10] = 0x01;
    assert_eq!(decoder::leb128(&mut SliceReader::new(&bytes)).unwrap(), 0);
    for last in [0x00u8, 0x02, 0x03, 0x7F] {
        bytes[10] = last;
        assert_eq!(
            decoder::leb128(&mut SliceReader::new(&bytes)).unwrap_err(),
            decoder::DecodeError::TooLargeVarint
        );
    }
    // an eleventh byte that asks for a twelfth
    let bytes = [0x81u8; 12];
    let mut reader = SliceReader::new(&bytes);
    assert_eq!(decoder::leb128(&mut reader).unwrap_err(), decoder::DecodeError::TooLargeVarint);
    assert_eq!(reader.next(), None);
}

#[test]
fn varint_tenth_byte_keeps_only_its_lowest_bit() {
    let mut bytes = [0x80u8; 10];
    bytes[9] = 0x7F;
    assert_eq!(decoder::leb128(&mut SliceReader::new(&bytes)).unwrap(), 0x8000_0000_0000_0000);
    bytes[9] = 0x7E;
    assert_eq!(decoder::leb128(&mut SliceReader::new(&bytes)).unwrap(), 0);
}

#[test]
fn varint_that_does_not_fit_writes_what_fits() {
    let mut buffer = FixedBuffer::<1>::new();
    let result = encoder::leb128(&mut buffer, &300).unwrap_err();
    assert_eq!(result, WriterError::BufferOverflow);
    assert_eq!(buffer.len(), 1);
    assert_eq!(buffer.as_slice()[0], 0xAC);

    let mut buffer = FixedBuffer::<0>::new();
    assert_eq!(encoder::leb128(&mut buffer, &0).unwrap_err(), WriterError::BufferOverflow);
}

#[test]
fn counting_sink_counts_and_never_refuses() {
    let mut counter = NullCounterBuffer::new();
    assert_eq!(encoder::leb128(&mut counter, &u64::MAX).unwrap(), 10);
    assert_eq!(encoder::fixed64(&mut counter, &1).unwrap(), 8);
    assert_eq!(encoder::string(&mut counter, "stay hungry, stay foolish").unwrap(), 26);
}
