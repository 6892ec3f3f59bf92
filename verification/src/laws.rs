//! Laws of the wire format: whatever an encoder writes, the matching
//! decoder reads back as the value that was written, and stops where the
//! value ends.
//!
//! Each law is stated for a value followed by arbitrary further bytes, so
//! that it holds in the middle of a message as well as at its end.

use vstd::prelude::*;
use vstd::arithmetic::power2::{lemma2_to64, lemma2_to64_rest, lemma_pow2_adds, pow2};
use crate::decoder::DecodeError;
use crate::message::{parse_scalar, ValueView};
use crate::schema::ScalarType;
use crate::wire::{
    bool_encoding, delimited_encoding, le_bytes, le_value, parse_bool, parse_bytes, parse_fixed32,
    parse_fixed64, parse_sfixed32, parse_sfixed64, parse_sint32, parse_sint64, parse_string,
    parse_tag, parse_varint, parse_varint_i32, parse_varint_i64, parse_varint_u32, tag_encoding,
    tag_fits, tag_value, unsigned32, unsigned64, unzigzag, varint_encoding, varint_payload,
    varint_terminator, zigzag, Parsed,
};

verus! {

/// The first digit of a payload can be split off: what is left is 128
/// times the payload of the digits after it.
pub proof fn lemma_payload_shift(s: Seq<u8>, n: nat)
    requires
        n < s.len(),
    ensures
        varint_payload(s, n + 1) == (s[0] % 128) as nat + 128 * varint_payload(s.skip(1), n),
    decreases n,
{
    if n == 0 {
        lemma2_to64();
        assert(varint_payload(s, 0) == 0);
        assert(varint_payload(s.skip(1), 0) == 0);
        assert(varint_payload(s, 1) == varint_payload(s, 0) + (s[0] % 128) as nat * pow2(0));
    } else {
        lemma_payload_shift(s, (n - 1) as nat);
        let t = s.skip(1);
        let d = (s[n as int] % 128) as nat;
        let p = pow2((7 * (n - 1)) as nat);
        assert(t[n - 1] == s[n as int]);
        lemma_pow2_adds((7 * (n - 1)) as nat, 7);
        lemma2_to64();
        assert(pow2(7 * n) == 128 * p);
        assert(d * (128 * p) == 128 * (d * p)) by (nonlinear_arith);
        assert(varint_payload(s, n + 1) == varint_payload(s, n) + d * pow2(7 * n));
        assert(varint_payload(t, n) == varint_payload(t, (n - 1) as nat) + d * p);
    }
}

/// The varint form of a number below `128^k` has at most `k` bytes, and
/// at least one.
pub proof fn lemma_varint_encoding_len(v: nat, k: nat)
    requires
        k >= 1,
        v < pow2(7 * k),
    ensures
        1 <= varint_encoding(v).len() <= k,
    decreases v,
{
    if v >= 128 {
        lemma2_to64();
        if k == 1 {
            assert(false);
        }
        lemma_pow2_adds((7 * (k - 1)) as nat, 7);
        lemma_varint_encoding_len(v / 128, (k - 1) as nat);
    }
}

/// The shape of a varint: every byte but the last has its high bit set,
/// the last has not, and the digits stand for the number.
pub proof fn lemma_varint_encoding_shape(v: nat, rest: Seq<u8>)
    ensures
        varint_encoding(v).len() >= 1,
        varint_terminator(varint_encoding(v) + rest) == varint_encoding(v).len() - 1,
        varint_payload(varint_encoding(v) + rest, varint_encoding(v).len()) == v,
    decreases v,
{
    let e = varint_encoding(v);
    let s = e + rest;
    if v < 128 {
        lemma2_to64();
        assert(s[0] == v);
        assert(e.len() == 1);
        assert(varint_payload(s, 0) == 0);
        assert(varint_payload(s, 1) == varint_payload(s, 0) + (s[0] % 128) as nat * pow2(0));
    } else {
        let tail = varint_encoding(v / 128);
        lemma_varint_encoding_shape(v / 128, rest);
        assert(s.skip(1) == tail + rest);
        assert(s[0] == 128 + v % 128);
        assert(e.len() == tail.len() + 1);
        lemma_payload_shift(s, tail.len());
    }
}

/// A varint reads back as the number it was written from, whatever
/// follows it.
pub proof fn law_varint_round_trip(v: u64, rest: Seq<u8>)
    ensures
        parse_varint(varint_encoding(v as nat) + rest) == (Parsed {
            result: Ok::<u64, DecodeError>(v),
            consumed: varint_encoding(v as nat).len(),
        }),
        varint_encoding(v as nat).len() <= 10,
{
    lemma2_to64();
    lemma2_to64_rest();
    lemma_pow2_adds(64, 6);
    lemma_varint_encoding_len(v as nat, 10);
    lemma_varint_encoding_shape(v as nat, rest);
}

/// Of a varint of eleven bytes, the eleventh carries nothing: the varint
/// is read when that byte is `0x01`, and is too large when it is anything
/// else.
pub proof fn law_eleventh_byte(s: Seq<u8>)
    requires
        s.len() >= 11,
        forall|j: int| 0 <= j < 10 ==> s[j] >= 128,
        s[10] < 128,
    ensures
        parse_varint(s).consumed == 11,
        s[10] == 1 ==> parse_varint(s).result == Ok::<u64, DecodeError>(
            (varint_payload(s, 10) % 0x1_0000_0000_0000_0000) as u64,
        ),
        s[10] != 1 ==> parse_varint(s).result == Err::<u64, DecodeError>(DecodeError::TooLargeVarint),
{
    crate::wire::lemma_terminator_from(s, 10);
}

/// An unsigned 32-bit number written as a varint reads back unchanged,
/// from at most five bytes.
pub proof fn law_uint32_round_trip(v: u32, rest: Seq<u8>)
    ensures
        parse_varint_u32(varint_encoding(v as nat) + rest) == (Parsed {
            result: Ok::<u32, DecodeError>(v),
            consumed: varint_encoding(v as nat).len(),
        }),
        varint_encoding(v as nat).len() <= 5,
{
    law_varint_round_trip(v as u64, rest);
    lemma2_to64();
    lemma2_to64_rest();
    lemma_varint_encoding_len(v as nat, 5);
}

/// A signed 64-bit number written as the varint of its two's complement
/// pattern reads back unchanged.
pub proof fn law_int64_round_trip(v: i64, rest: Seq<u8>)
    ensures
        parse_varint_i64(varint_encoding(unsigned64(v as int)) + rest) == (Parsed {
            result: Ok::<i64, DecodeError>(v),
            consumed: varint_encoding(unsigned64(v as int)).len(),
        }),
{
    law_varint_round_trip(unsigned64(v as int) as u64, rest);
}

/// A signed 32-bit number written as the varint of its sign-extended
/// pattern reads back unchanged.
pub proof fn law_int32_round_trip(v: i32, rest: Seq<u8>)
    ensures
        parse_varint_i32(varint_encoding(unsigned64(v as int)) + rest) == (Parsed {
            result: Ok::<i32, DecodeError>(v),
            consumed: varint_encoding(unsigned64(v as int)).len(),
        }),
{
    law_varint_round_trip(unsigned64(v as int) as u64, rest);
}

/// Zigzag is undone by its inverse.
pub proof fn law_zigzag_inverse(n: int)
    ensures
        unzigzag(zigzag(n)) == n,
{
}

/// A signed 32-bit number written as the varint of its zigzag image reads
/// back unchanged.
pub proof fn law_sint32_round_trip(v: i32, rest: Seq<u8>)
    ensures
        parse_sint32(varint_encoding(zigzag(v as int)) + rest) == (Parsed {
            result: Ok::<i32, DecodeError>(v),
            consumed: varint_encoding(zigzag(v as int)).len(),
        }),
{
    law_uint32_round_trip(zigzag(v as int) as u32, rest);
}

/// A signed 64-bit number written as the varint of its zigzag image reads
/// back unchanged.
pub proof fn law_sint64_round_trip(v: i64, rest: Seq<u8>)
    ensures
        parse_sint64(varint_encoding(zigzag(v as int)) + rest) == (Parsed {
            result: Ok::<i64, DecodeError>(v),
            consumed: varint_encoding(zigzag(v as int)).len(),
        }),
{
    law_varint_round_trip(zigzag(v as int) as u64, rest);
}

/// A tag reads back as the field number and the wire type it was packed
/// from.
pub proof fn law_tag_round_trip(field_number: u32, wire_type: u8, rest: Seq<u8>)
    requires
        tag_fits(field_number, wire_type),
    ensures
        parse_tag(tag_encoding(field_number, wire_type) + rest) == (Parsed {
            result: Ok::<(u32, u8), DecodeError>((field_number, wire_type)),
            consumed: tag_encoding(field_number, wire_type).len(),
        }),
        1 <= tag_encoding(field_number, wire_type).len() <= 5,
{
    law_uint32_round_trip(tag_value(field_number, wire_type) as u32, rest);
}

/// Little-endian digits have the length asked for and stand for the
/// number they were taken from, as far as that many digits can.
pub proof fn lemma_le_round_trip(v: nat, width: nat, rest: Seq<u8>)
    ensures
        le_bytes(v, width).len() == width,
        (le_bytes(v, width) + rest).take(width as int) == le_bytes(v, width),
        v < pow2(8 * width) ==> le_value(le_bytes(v, width)) == v,
    decreases width,
{
    lemma2_to64();
    if width > 0 {
        let digits = le_bytes(v, width);
        lemma_le_round_trip(v / 256, (width - 1) as nat, rest);
        assert(digits.skip(1) == le_bytes(v / 256, (width - 1) as nat));
        lemma_pow2_adds((8 * (width - 1)) as nat, 8);
    }
    assert((le_bytes(v, width) + rest).take(width as int) == le_bytes(v, width));
}

/// An unsigned 32-bit number written as four bytes reads back unchanged.
pub proof fn law_fixed32_round_trip(v: u32, rest: Seq<u8>)
    ensures
        parse_fixed32(le_bytes(v as nat, 4) + rest) == (Parsed {
            result: Ok::<u32, DecodeError>(v),
            consumed: 4,
        }),
        le_bytes(v as nat, 4).len() == 4,
{
    lemma2_to64();
    lemma_le_round_trip(v as nat, 4, rest);
}

/// An unsigned 64-bit number written as eight bytes reads back unchanged.
pub proof fn law_fixed64_round_trip(v: u64, rest: Seq<u8>)
    ensures
        parse_fixed64(le_bytes(v as nat, 8) + rest) == (Parsed {
            result: Ok::<u64, DecodeError>(v),
            consumed: 8,
        }),
        le_bytes(v as nat, 8).len() == 8,
{
    lemma2_to64();
    lemma_le_round_trip(v as nat, 8, rest);
}

/// A signed 32-bit number written as the four bytes of its two's
/// complement pattern reads back unchanged.
pub proof fn law_sfixed32_round_trip(v: i32, rest: Seq<u8>)
    ensures
        parse_sfixed32(le_bytes(unsigned32(v as int), 4) + rest) == (Parsed {
            result: Ok::<i32, DecodeError>(v),
            consumed: 4,
        }),
        le_bytes(unsigned32(v as int), 4).len() == 4,
{
    law_fixed32_round_trip(unsigned32(v as int) as u32, rest);
}

/// A signed 64-bit number written as the eight bytes of its two's
/// complement pattern reads back unchanged.
pub proof fn law_sfixed64_round_trip(v: i64, rest: Seq<u8>)
    ensures
        parse_sfixed64(le_bytes(unsigned64(v as int), 8) + rest) == (Parsed {
            result: Ok::<i64, DecodeError>(v),
            consumed: 8,
        }),
        le_bytes(unsigned64(v as int), 8).len() == 8,
{
    law_fixed64_round_trip(unsigned64(v as int) as u64, rest);
}

/// A boolean reads back unchanged.
pub proof fn law_bool_round_trip(v: bool, rest: Seq<u8>)
    ensures
        parse_bool(bool_encoding(v) + rest) == (Parsed { result: Ok::<bool, DecodeError>(v), consumed: 1 }),
{
    assert((bool_encoding(v) + rest)[0] == bool_encoding(v)[0]);
}

/// A run of bytes that its destination can hold reads back unchanged.
pub proof fn law_bytes_round_trip(payload: Seq<u8>, capacity: nat, field_name: &'static str, rest: Seq<u8>)
    requires
        payload.len() <= capacity,
        payload.len() <= u32::MAX,
    ensures
        parse_bytes(delimited_encoding(payload) + rest, capacity, field_name) == (Parsed {
            result: Ok::<Seq<u8>, DecodeError>(payload),
            consumed: delimited_encoding(payload).len(),
        }),
{
    let head = varint_encoding(payload.len());
    let s = delimited_encoding(payload) + rest;
    assert(s == head + (payload + rest));
    law_uint32_round_trip(payload.len() as u32, payload + rest);
    assert(s.skip(head.len() as int) == payload + rest);
    assert((payload + rest).take(payload.len() as int) == payload);
}

/// A run of bytes that is longer than its destination can hold is refused
/// by the name of its field, once its length has been read and before any
/// of it is taken.
pub proof fn law_bytes_overflow(payload: Seq<u8>, capacity: nat, field_name: &'static str, rest: Seq<u8>)
    requires
        payload.len() > capacity,
        payload.len() <= u32::MAX,
    ensures
        parse_bytes(delimited_encoding(payload) + rest, capacity, field_name) == (Parsed {
            result: Err::<Seq<u8>, DecodeError>(DecodeError::FieldOverflow(field_name)),
            consumed: varint_encoding(payload.len()).len(),
        }),
        parse_string(delimited_encoding(payload) + rest, capacity, field_name) == (Parsed {
            result: Err::<Seq<char>, DecodeError>(DecodeError::FieldOverflow(field_name)),
            consumed: varint_encoding(payload.len()).len(),
        }),
{
    let head = varint_encoding(payload.len());
    let s = delimited_encoding(payload) + rest;
    assert(s == head + (payload + rest));
    law_uint32_round_trip(payload.len() as u32, payload + rest);
}

/// Text whose UTF-8 form its destination can hold reads back unchanged.
pub proof fn law_string_round_trip(text: Seq<char>, capacity: nat, field_name: &'static str, rest: Seq<u8>)
    requires
        vstd::utf8::encode_utf8(text).len() <= capacity,
        vstd::utf8::encode_utf8(text).len() <= u32::MAX,
    ensures
        parse_string(delimited_encoding(vstd::utf8::encode_utf8(text)) + rest, capacity, field_name) == (
        Parsed {
            result: Ok::<Seq<char>, DecodeError>(text),
            consumed: delimited_encoding(vstd::utf8::encode_utf8(text)).len(),
        }),
{
    law_bytes_round_trip(vstd::utf8::encode_utf8(text), capacity, field_name, rest);
    vstd::utf8::encode_utf8_valid_utf8(text);
    vstd::utf8::encode_utf8_decode_utf8(text);
}

/// A scalar that was read took at least one byte and no more than there
/// were; one that was not read took no more than there were either.
pub proof fn lemma_parse_scalar_within(ty: ScalarType, capacity: nat, field_name: &'static str, s: Seq<u8>)
    ensures
        parse_scalar(ty, capacity, field_name, s).consumed <= s.len(),
        parse_scalar(ty, capacity, field_name, s).result is Ok ==> parse_scalar(
            ty,
            capacity,
            field_name,
            s,
        ).consumed >= 1,
{
    reveal(parse_scalar);
    crate::wire::lemma_terminator(s);
}

/// Reading a scalar finds nothing to read exactly when nothing is there.
pub proof fn lemma_parse_scalar_empty(ty: ScalarType, capacity: nat, field_name: &'static str, s: Seq<u8>)
    ensures
        parse_scalar(ty, capacity, field_name, s).result == Err::<ValueView, DecodeError>(
            DecodeError::EmptyBuffer,
        ) <==> s.len() == 0,
{
    reveal(parse_scalar);
    crate::wire::lemma_terminator(s);
}

/// A tag that was read took at least one byte and no more than there
/// were.
pub proof fn lemma_parse_tag_within(s: Seq<u8>)
    ensures
        parse_tag(s).consumed <= s.len(),
        parse_tag(s).result is Ok ==> parse_tag(s).consumed >= 1,
{
    crate::wire::lemma_terminator(s);
}

/// Reading a tag finds nothing to read exactly when nothing is there.
pub proof fn lemma_parse_tag_empty(s: Seq<u8>)
    ensures
        parse_tag(s).result == Err::<(u32, u8), DecodeError>(DecodeError::EmptyBuffer) <==> s.len() == 0,
{
    crate::wire::lemma_terminator(s);
}

} // verus!
