use twpb::iterators::{FixedBuffer, SliceReader};
use twpb::{decoder, encoder, Reader};

#[test]
fn test_strings() {
    let mut buffer = FixedBuffer::<100>::new();
    let bytes_written = encoder::string(&mut buffer, "stay hungry, stay foolish").unwrap();
    assert_eq!(bytes_written, 26);
    let string = decoder::string::<25, _>(&mut SliceReader::new(buffer.as_slice()), "").unwrap();
    assert_eq!(string, "stay hungry, stay foolish");
}

#[test]
fn test_utf8_strings() {
    let mut buffer = FixedBuffer::<100>::new();
    let bytes_written = encoder::string(&mut buffer, "🐉🐉🐉🐉").unwrap();
    assert_eq!(bytes_written, 17);
    let string = decoder::string::<20, _>(&mut SliceReader::new(buffer.as_slice()), "").unwrap();
    assert_eq!(string, "🐉🐉🐉🐉");
}

#[test]
fn string_longer_than_its_destination_is_refused_by_name() {
    let mut buffer = FixedBuffer::<100>::new();
    encoder::string(&mut buffer, "stay hungry, stay foolish").unwrap();
    let mut reader = SliceReader::new(buffer.as_slice());
    let result = decoder::string::<24, _>(&mut reader, "motto").unwrap_err();
    assert_eq!(result, decoder::DecodeError::FieldOverflow("motto"));
    // only the length was taken
    assert_eq!(reader.len(), 99);
}

#[test]
fn string_that_is_not_utf8_is_refused() {
    let result = decoder::string::<10, _>(&mut SliceReader::new(&[2, 0xC3, 0x28]), "").unwrap_err();
    assert_eq!(result, decoder::DecodeError::StringParseError);
    let result = decoder::string::<10, _>(&mut SliceReader::new(&[1, 0xFF]), "").unwrap_err();
    assert_eq!(result, decoder::DecodeError::StringParseError);
}

#[test]
fn string_that_ends_early_is_an_unexpected_end() {
    let result = decoder::string::<10, _>(&mut SliceReader::new(&[5, b'a', b'b']), "").unwrap_err();
    assert_eq!(result, decoder::DecodeError::UnexpectedEndOfBuffer);
    let result = decoder::string::<10, _>(&mut SliceReader::new(&[]), "").unwrap_err();
    assert_eq!(result, decoder::DecodeError::EmptyBuffer);
}

#[test]
fn bytes_round_trip_and_overflow() {
    let mut buffer = FixedBuffer::<100>::new();
    let bytes_written = encoder::bytes(&mut buffer, &[b'A', b'S', b'D', b'F']).unwrap();
    assert_eq!(bytes_written, 5);
    assert_eq!(buffer.as_slice()[0..5], [4, 0x41, 0x53, 0x44, 0x46]);
    let payload = decoder::bytes::<4, _>(&mut SliceReader::new(buffer.as_slice()), "").unwrap();
    assert_eq!(payload, vec![b'A', b'S', b'D', b'F']);
    let result = decoder::bytes::<3, _>(&mut SliceReader::new(buffer.as_slice()), "blob").unwrap_err();
    assert_eq!(result, decoder::DecodeError::FieldOverflow("blob"));
    let empty = decoder::bytes::<0, _>(&mut SliceReader::new(&[0]), "").unwrap();
    assert_eq!(empty, Vec::<u8>::new());
}

#[test]
fn unknown_values_are_passed_over_by_wire_type() {
    // a varint of ten bytes
    let bytes = [0xFF, 0xFF, 0xFF, 0xFF, 0xFF, 0xFF, 0xFF, 0xFF, 0xFF, 0x01, 0x55];
    let mut reader = SliceReader::new(&bytes);
    decoder::unknown(&mut reader, twpb::wire_types::VARINT).unwrap();
    assert_eq!(reader.next(), Some(0x55));
    // four bytes
    let bytes = [1, 2, 3, 4, 0x55];
    let mut reader = SliceReader::new(&bytes);
    decoder::unknown(&mut reader, twpb::wire_types::B32).unwrap();
    assert_eq!(reader.next(), Some(0x55));
    // eight bytes
    let bytes = [1, 2, 3, 4, 5, 6, 7, 8, 0x55];
    let mut reader = SliceReader::new(&bytes);
    decoder::unknown(&mut reader, twpb::wire_types::B64).unwrap();
    assert_eq!(reader.next(), Some(0x55));
    // a length and that many bytes
    let bytes = [3, 1, 2, 3, 0x55];
    let mut reader = SliceReader::new(&bytes);
    decoder::unknown(&mut reader, twpb::wire_types::LENGTHDELIMITED).unwrap();
    assert_eq!(reader.next(), Some(0x55));
    // as much as is there
    let bytes = [200, 1, 1, 2, 3];
    let mut reader = SliceReader::new(&bytes);
    decoder::unknown(&mut reader, twpb::wire_types::LENGTHDELIMITED).unwrap();
    assert_eq!(reader.next(), None);
}

#[test]
fn group_wire_types_are_refused() {
    let bytes = [1, 2, 3];
    for wire_type in [twpb::wire_types::STARTGROUP, twpb::wire_types::ENDGROUP, 6, 7] {
        let mut reader = SliceReader::new(&bytes);
        assert_eq!(
            decoder::unknown(&mut reader, wire_type).unwrap_err(),
            decoder::DecodeError::UnsupportedWireType(wire_type)
        );
        assert_eq!(reader.len(), 3);
    }
}
