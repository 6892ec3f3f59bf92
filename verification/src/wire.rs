//! The wire format as mathematics: what each value looks like as bytes, and
//! what a run of bytes means when it is read as a value.
//!
//! Nothing here is executable. The encoders and decoders are held to these
//! definitions by their contracts.

use vstd::prelude::*;
use vstd::arithmetic::power2::pow2;
use crate::decoder::DecodeError;
use crate::traits::{advanced, Reader};

verus! {

/// The outcome of reading one value from the front of a run of bytes: the
/// value or the reason there is none, and how many bytes were taken from the
/// run either way.
pub struct Parsed<T> {
    pub result: Result<T, DecodeError>,
    pub consumed: nat,
}

/// A source went from `before` to `after` while one value was read from it,
/// `r` is what the reader of the value returned, and `p` is what the bytes
/// that `before` held mean.
pub open spec fn reads<R: Reader, T>(before: R, after: R, r: Result<T, DecodeError>, p: Parsed<T>) -> bool {
    &&& r == p.result
    &&& p.consumed <= before.remaining().len()
    &&& after == advanced(before, p.consumed)
    &&& after.remaining() == before.remaining().skip(p.consumed as int)
}

/// `p` with its value replaced by the error `e`.
pub open spec fn failed<T, U>(p: Parsed<T>, e: DecodeError) -> Parsed<U> {
    Parsed { result: Err(e), consumed: p.consumed }
}

// ---------------------------------------------------------------------------
// Varints
// ---------------------------------------------------------------------------

/// The varint form of `v`: its base-128 digits, least significant first,
/// each but the last with the high bit set.
pub open spec fn varint_encoding(v: nat) -> Seq<u8>
    decreases v,
{
    if v < 128 {
        seq![v as u8]
    } else {
        seq![(128 + v % 128) as u8] + varint_encoding(v / 128)
    }
}

/// The index of the first byte of `s` whose high bit is clear, or the length
/// of `s` when there is none.
pub open spec fn varint_terminator(s: Seq<u8>) -> nat
    decreases s.len(),
{
    if s.len() == 0 || s[0] < 128 {
        0
    } else {
        1 + varint_terminator(s.skip(1))
    }
}

/// The number whose base-128 digits, least significant first, are the low
/// seven bits of the first `n` bytes of `s`.
pub open spec fn varint_payload(s: Seq<u8>, n: nat) -> nat
    decreases n,
{
    if n == 0 {
        0
    } else {
        varint_payload(s, (n - 1) as nat) + (s[n - 1] % 128) as nat * pow2((7 * (n - 1)) as nat)
    }
}

/// What the front of `s` means as a varint.
///
/// A varint ends at the first byte whose high bit is clear. The first ten
/// bytes carry the value, of which only the low 64 bits are kept. An
/// eleventh byte is tolerated when it is the last and equals `0x01`; a
/// twelfth is never read past.
pub open spec fn parse_varint(s: Seq<u8>) -> Parsed<u64> {
    let t = varint_terminator(s);
    if s.len() == 0 {
        Parsed { result: Err(DecodeError::EmptyBuffer), consumed: 0 }
    } else if t >= 11 && s.len() >= 12 {
        Parsed { result: Err(DecodeError::TooLargeVarint), consumed: 12 }
    } else if t >= s.len() {
        Parsed { result: Err(DecodeError::UnexpectedEndOfBuffer), consumed: s.len() }
    } else if t == 10 && s[10] != 1 {
        Parsed { result: Err(DecodeError::TooLargeVarint), consumed: 11 }
    } else {
        let digits = if t < 10 { t + 1 } else { 10 };
        Parsed {
            result: Ok((varint_payload(s, digits) % 0x1_0000_0000_0000_0000) as u64),
            consumed: t + 1,
        }
    }
}

/// The terminator lies within the run or at its end, every byte before it
/// has its high bit set, and the byte at it has not.
pub proof fn lemma_terminator(s: Seq<u8>)
    ensures
        varint_terminator(s) <= s.len(),
        forall|j: int| 0 <= j < varint_terminator(s) ==> s[j] >= 128,
        varint_terminator(s) < s.len() ==> s[varint_terminator(s) as int] < 128,
    decreases s.len(),
{
    if s.len() > 0 && s[0] >= 128 {
        lemma_terminator(s.skip(1));
        assert forall|j: int| 0 <= j < varint_terminator(s) implies s[j] >= 128 by {
            if j > 0 {
                assert(s[j] == s.skip(1)[j - 1]);
            }
        }
    }
}

/// The terminator is past every leading byte whose high bit is set, and it
/// is the first byte whose high bit is clear, if that follows them.
pub proof fn lemma_terminator_from(s: Seq<u8>, n: nat)
    requires
        n <= s.len(),
        forall|j: int| 0 <= j < n ==> s[j] >= 128,
    ensures
        varint_terminator(s) >= n,
        n == s.len() || s[n as int] < 128 ==> varint_terminator(s) == n,
    decreases n,
{
    if n > 0 {
        assert forall|j: int| 0 <= j < n - 1 implies s.skip(1)[j] >= 128 by {
            assert(s.skip(1)[j] == s[j + 1]);
        }
        lemma_terminator_from(s.skip(1), (n - 1) as nat);
    }
}

/// Reading a varint never takes more bytes than there are.
pub proof fn lemma_parse_varint_within(s: Seq<u8>)
    ensures
        parse_varint(s).consumed <= s.len(),
        parse_varint(s).result is Ok ==> parse_varint(s).consumed >= 1,
{
    lemma_terminator(s);
}

/// What the front of `s` means as a varint that must fit in 32 bits.
pub open spec fn parse_varint_u32(s: Seq<u8>) -> Parsed<u32> {
    let p = parse_varint(s);
    match p.result {
        Ok(v) => if v > u32::MAX {
            failed(p, DecodeError::TooLargeVarint)
        } else {
            Parsed { result: Ok(v as u32), consumed: p.consumed }
        },
        Err(e) => failed(p, e),
    }
}

/// The signed number that the 64-bit pattern `v` stands for in two's
/// complement.
pub open spec fn signed64(v: u64) -> int {
    if v >= 0x8000_0000_0000_0000 {
        v - 0x1_0000_0000_0000_0000
    } else {
        v as int
    }
}

/// The 64-bit two's complement pattern of `i`.
pub open spec fn unsigned64(i: int) -> nat {
    if i < 0 {
        (i + 0x1_0000_0000_0000_0000) as nat
    } else {
        i as nat
    }
}

/// The signed number that the 32-bit pattern `v` stands for in two's
/// complement.
pub open spec fn signed32(v: u32) -> int {
    if v >= 0x8000_0000 {
        v - 0x1_0000_0000
    } else {
        v as int
    }
}

/// The 32-bit two's complement pattern of `i`.
pub open spec fn unsigned32(i: int) -> nat {
    if i < 0 {
        (i + 0x1_0000_0000) as nat
    } else {
        i as nat
    }
}

/// What the front of `s` means as a varint read as a signed 64-bit number.
pub open spec fn parse_varint_i64(s: Seq<u8>) -> Parsed<i64> {
    let p = parse_varint(s);
    match p.result {
        Ok(v) => Parsed { result: Ok(signed64(v) as i64), consumed: p.consumed },
        Err(e) => failed(p, e),
    }
}

/// What the front of `s` means as a varint read as a signed number that
/// must fit in 32 bits.
pub open spec fn parse_varint_i32(s: Seq<u8>) -> Parsed<i32> {
    let p = parse_varint(s);
    match p.result {
        Ok(v) => if i32::MIN <= signed64(v) <= i32::MAX {
            Parsed { result: Ok(signed64(v) as i32), consumed: p.consumed }
        } else {
            failed(p, DecodeError::TooLargeVarint)
        },
        Err(e) => failed(p, e),
    }
}

// ---------------------------------------------------------------------------
// Zigzag
// ---------------------------------------------------------------------------

/// The zigzag image of `n`: 0, -1, 1, -2, 2, ... become 0, 1, 2, 3, 4, ...
pub open spec fn zigzag(n: int) -> nat {
    if n >= 0 {
        (2 * n) as nat
    } else {
        (-2 * n - 1) as nat
    }
}

/// The number whose zigzag image is `z`.
pub open spec fn unzigzag(z: nat) -> int {
    if z % 2 == 0 {
        (z / 2) as int
    } else {
        -(z / 2) - 1
    }
}

/// What the front of `s` means as a zigzag-coded 32-bit number.
pub open spec fn parse_sint32(s: Seq<u8>) -> Parsed<i32> {
    let p = parse_varint_u32(s);
    match p.result {
        Ok(v) => Parsed { result: Ok(unzigzag(v as nat) as i32), consumed: p.consumed },
        Err(e) => failed(p, e),
    }
}

/// What the front of `s` means as a zigzag-coded 64-bit number.
pub open spec fn parse_sint64(s: Seq<u8>) -> Parsed<i64> {
    let p = parse_varint(s);
    match p.result {
        Ok(v) => Parsed { result: Ok(unzigzag(v as nat) as i64), consumed: p.consumed },
        Err(e) => failed(p, e),
    }
}

// ---------------------------------------------------------------------------
// Tags
// ---------------------------------------------------------------------------

/// Whether a field number and a wire type can be packed into one tag.
pub open spec fn tag_fits(field_number: u32, wire_type: u8) -> bool {
    field_number < 0x2000_0000 && wire_type < 8
}

/// The number a tag is sent as: the field number above the three bits of
/// the wire type.
pub open spec fn tag_value(field_number: u32, wire_type: u8) -> nat {
    (field_number * 8 + wire_type) as nat
}

/// The bytes of a tag.
pub open spec fn tag_encoding(field_number: u32, wire_type: u8) -> Seq<u8> {
    varint_encoding(tag_value(field_number, wire_type))
}

/// What the front of `s` means as a tag: a field number and a wire type.
pub open spec fn parse_tag(s: Seq<u8>) -> Parsed<(u32, u8)> {
    let p = parse_varint_u32(s);
    match p.result {
        Ok(v) => Parsed { result: Ok(((v / 8) as u32, (v % 8) as u8)), consumed: p.consumed },
        Err(e) => failed(p, e),
    }
}

// ---------------------------------------------------------------------------
// Fixed-width numbers
// ---------------------------------------------------------------------------

/// The `width` least significant base-256 digits of `v`, least significant
/// first.
pub open spec fn le_bytes(v: nat, width: nat) -> Seq<u8>
    decreases width,
{
    if width == 0 {
        Seq::empty()
    } else {
        seq![(v % 256) as u8] + le_bytes(v / 256, (width - 1) as nat)
    }
}

/// The number whose base-256 digits, least significant first, are `s`.
pub open spec fn le_value(s: Seq<u8>) -> nat
    decreases s.len(),
{
    if s.len() == 0 {
        0
    } else {
        s[0] as nat + 256 * le_value(s.skip(1))
    }
}

/// What the front of `s` means as a little-endian number of `width` bytes.
pub open spec fn parse_fixed(s: Seq<u8>, width: nat) -> Parsed<nat> {
    if s.len() == 0 {
        Parsed { result: Err(DecodeError::EmptyBuffer), consumed: 0 }
    } else if s.len() < width {
        Parsed { result: Err(DecodeError::UnexpectedEndOfBuffer), consumed: s.len() }
    } else {
        Parsed { result: Ok(le_value(s.take(width as int))), consumed: width }
    }
}

/// What the front of `s` means as an unsigned 32-bit fixed-width number.
pub open spec fn parse_fixed32(s: Seq<u8>) -> Parsed<u32> {
    let p = parse_fixed(s, 4);
    match p.result {
        Ok(v) => Parsed { result: Ok(v as u32), consumed: p.consumed },
        Err(e) => failed(p, e),
    }
}

/// What the front of `s` means as an unsigned 64-bit fixed-width number.
pub open spec fn parse_fixed64(s: Seq<u8>) -> Parsed<u64> {
    let p = parse_fixed(s, 8);
    match p.result {
        Ok(v) => Parsed { result: Ok(v as u64), consumed: p.consumed },
        Err(e) => failed(p, e),
    }
}

/// What the front of `s` means as a signed 32-bit fixed-width number.
pub open spec fn parse_sfixed32(s: Seq<u8>) -> Parsed<i32> {
    let p = parse_fixed32(s);
    match p.result {
        Ok(v) => Parsed { result: Ok(signed32(v) as i32), consumed: p.consumed },
        Err(e) => failed(p, e),
    }
}

/// What the front of `s` means as a signed 64-bit fixed-width number.
pub open spec fn parse_sfixed64(s: Seq<u8>) -> Parsed<i64> {
    let p = parse_fixed64(s);
    match p.result {
        Ok(v) => Parsed { result: Ok(signed64(v) as i64), consumed: p.consumed },
        Err(e) => failed(p, e),
    }
}

// ---------------------------------------------------------------------------
// Booleans
// ---------------------------------------------------------------------------

/// The byte a boolean is sent as.
pub open spec fn bool_encoding(b: bool) -> Seq<u8> {
    seq![if b { 1u8 } else { 0u8 }]
}

/// What the front of `s` means as a boolean: true when the lowest bit of
/// the first byte is set.
pub open spec fn parse_bool(s: Seq<u8>) -> Parsed<bool> {
    if s.len() == 0 {
        Parsed { result: Err(DecodeError::EmptyBuffer), consumed: 0 }
    } else {
        Parsed { result: Ok(s[0] % 2 == 1), consumed: 1 }
    }
}

// ---------------------------------------------------------------------------
// Length-delimited payloads
// ---------------------------------------------------------------------------

/// The bytes of a length-delimited value: the length as a varint, then the
/// payload.
pub open spec fn delimited_encoding(payload: Seq<u8>) -> Seq<u8> {
    varint_encoding(payload.len()) + payload
}

/// What the front of `s` means as a run of bytes for a destination that
/// holds at most `capacity` of them.
///
/// A declared length above the capacity is refused as soon as it is known,
/// before any of the payload is taken.
pub open spec fn parse_bytes(s: Seq<u8>, capacity: nat, field_name: &'static str) -> Parsed<Seq<u8>> {
    let p = parse_varint_u32(s);
    match p.result {
        Ok(len) => {
            let rest = s.skip(p.consumed as int);
            if len > capacity {
                failed(p, DecodeError::FieldOverflow(field_name))
            } else if rest.len() < len {
                Parsed { result: Err(DecodeError::UnexpectedEndOfBuffer), consumed: s.len() }
            } else {
                Parsed { result: Ok(rest.take(len as int)), consumed: p.consumed + len as nat }
            }
        },
        Err(e) => failed(p, e),
    }
}

/// What the front of `s` means as text for a destination that holds at
/// most `capacity` bytes of UTF-8.
pub open spec fn parse_string(s: Seq<u8>, capacity: nat, field_name: &'static str) -> Parsed<Seq<char>> {
    let p = parse_bytes(s, capacity, field_name);
    match p.result {
        Ok(payload) => if vstd::utf8::valid_utf8(payload) {
            Parsed { result: Ok(vstd::utf8::decode_utf8(payload)), consumed: p.consumed }
        } else {
            failed(p, DecodeError::StringParseError)
        },
        Err(e) => failed(p, e),
    }
}

// ---------------------------------------------------------------------------
// Values of fields that are passed over
// ---------------------------------------------------------------------------

/// What the front of `s` means as a value of the given wire type that is
/// to be passed over: how much of `s` belongs to it.
///
/// A varint is read and dropped. A fixed-width value is its four or eight
/// bytes, and a length-delimited value is its length and that many bytes;
/// of either, as much as is there. No other wire type can be passed over.
pub open spec fn parse_unknown(s: Seq<u8>, wire_type: u8) -> Parsed<()> {
    if wire_type == 0 {
        let p = parse_varint(s);
        match p.result {
            Ok(_) => Parsed { result: Ok(()), consumed: p.consumed },
            Err(e) => failed(p, e),
        }
    } else if wire_type == 5 {
        Parsed { result: Ok(()), consumed: if s.len() < 4 { s.len() } else { 4 } }
    } else if wire_type == 1 {
        Parsed { result: Ok(()), consumed: if s.len() < 8 { s.len() } else { 8 } }
    } else if wire_type == 2 {
        let p = parse_varint_u32(s);
        match p.result {
            Ok(len) => {
                let rest = s.skip(p.consumed as int);
                Parsed {
                    result: Ok(()),
                    consumed: p.consumed + if rest.len() < len { rest.len() } else { len as nat },
                }
            },
            Err(e) => failed(p, e),
        }
    } else {
        Parsed { result: Err(DecodeError::UnsupportedWireType(wire_type)), consumed: 0 }
    }
}

/// Passing over a value never takes more bytes than there are.
pub proof fn lemma_parse_unknown_within(s: Seq<u8>, wire_type: u8)
    ensures
        parse_unknown(s, wire_type).consumed <= s.len(),
{
    lemma_parse_varint_within(s);
}

} // verus!
