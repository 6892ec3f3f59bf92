//! Decoders: each takes the wire form of one value from the front of a
//! source and says what it was.

use vstd::prelude::*;
use vstd::arithmetic::power2::{
    lemma2_to64, lemma2_to64_rest, lemma_pow2_adds, lemma_pow2_strictly_increases, pow2,
};
use crate::scratch::{chunks, chunks_as_slice, chunks_new, chunks_push};
use crate::traits::{advanced, lemma_advanced_remaining, lemma_advanced_step, Reader};
use crate::wire::{
    le_value, lemma_terminator_from, parse_bool, parse_bytes, parse_fixed32, parse_fixed64,
    parse_sfixed32, parse_sfixed64, parse_sint32, parse_sint64, parse_string, parse_tag,
    parse_unknown, parse_varint, parse_varint_i32, parse_varint_i64, parse_varint_u32, reads,
    varint_payload, varint_terminator,
};
use crate::wiretypes::wire_types;

verus! {

/// Why decoding stopped.
#[derive(Debug, Copy, Clone, Eq, PartialEq)]
pub enum DecodeError {
    /// Nothing was left to read where a value could have started: the clean
    /// end of a message or of a packed run.
    EmptyBuffer,
    /// The input ended in the middle of a value. The engine also answers
    /// with this when a list is sent more items than it can hold, and when
    /// a oneof is sent a number that selects none of its variants.
    UnexpectedEndOfBuffer,
    /// A varint is longer than 64 bits allow, or its value does not fit the
    /// integer type asked for.
    TooLargeVarint,
    /// A string payload is not valid UTF-8.
    StringParseError,
    /// A field number no descriptor accounts for. Nothing here returns it:
    /// such a field is passed over.
    UnknownFieldNumber(usize),
    /// The named field was sent more bytes than it can hold.
    FieldOverflow(&'static str),
    /// The named field arrived with a wire type it cannot be read from.
    /// Nothing here returns it: a value is read as the type of its field
    /// says, whatever wire type its tag claims.
    WrongWireType(u8, &'static str),
    /// A group wire type, or a wire type that does not exist.
    UnsupportedWireType(u8),
}

/// Adding one digit to a payload of `i` digits, for a digit that lies
/// wholly within 64 bits.
proof fn lemma_digit_within(acc: u64, chunk: u8, i: nat)
    requires
        i < 9,
        chunk < 128,
        acc < pow2(7 * i),
    ensures
        (acc | ((chunk as u64) << ((7 * i) as u64))) == acc + chunk * pow2(7 * i),
        acc + chunk * pow2(7 * i) < pow2(7 * (i + 1)),
{
    let shift: u64 = (7 * i) as u64;
    let digit: u64 = chunk as u64;
    let place = pow2(7 * i);
    lemma2_to64();
    lemma2_to64_rest();
    if 7 * i < 56 {
        lemma_pow2_strictly_increases(7 * i, 56);
    }
    lemma_pow2_adds(7 * i, 7);
    assert(digit * place <= 127 * place) by (nonlinear_arith)
        requires
            digit <= 127,
    ;
    vstd::bits::lemma_u64_shl_is_mul(digit, shift);
    vstd::bits::lemma_u64_shl_is_mul(1, shift);
    assert((acc | (digit << shift)) == acc + (digit << shift)) by (bit_vector)
        requires
            shift <= 56,
            digit < 128,
            acc < (1u64 << shift),
    ;
}

/// Adding the tenth digit, of which only the lowest bit lies within 64
/// bits.
proof fn lemma_digit_across(acc: u64, chunk: u8)
    requires
        chunk < 128,
        acc < pow2(63),
    ensures
        (acc | ((chunk as u64) << 63u64)) == (acc + chunk * pow2(63)) % 0x1_0000_0000_0000_0000,
{
    let digit: u64 = chunk as u64;
    lemma2_to64();
    lemma2_to64_rest();
    assert((acc | (digit << 63u64)) == acc + (digit % 2) * 0x8000_0000_0000_0000) by (bit_vector)
        requires
            digit < 128,
            acc < 0x8000_0000_0000_0000u64,
    ;
    assert((acc + digit * 0x8000_0000_0000_0000) % 0x1_0000_0000_0000_0000 == acc + (digit % 2)
        * 0x8000_0000_0000_0000) by (nonlinear_arith)
        requires
            digit < 128,
            acc < 0x8000_0000_0000_0000u64,
    ;
}

/// Reads a varint.
pub fn leb128<R: Reader>(bytes: &mut R) -> (r: Result<u64, DecodeError>)
    ensures
        reads(*old(bytes), *final(bytes), r, parse_varint(old(bytes).remaining())),
{
    let ghost s = bytes.remaining();
    // The high bit of each byte says whether another byte follows.
    let mut last_encountered_msb = true;
    // Ten bytes hold 64 bits; an eleventh is kept so that it can be told from
    // one more than that.
    let mut tag_bytes = chunks_new();
    proof {
        lemma_advanced_remaining(*bytes, 0);
    }
    while last_encountered_msb
        invariant
            s == old(bytes).remaining(),
            chunks(tag_bytes).len() <= 11,
            chunks(tag_bytes).len() <= s.len(),
            *bytes == advanced(*old(bytes), chunks(tag_bytes).len()),
            bytes.remaining() == s.skip(chunks(tag_bytes).len() as int),
            forall|j: int| 0 <= j < chunks(tag_bytes).len() ==> chunks(tag_bytes)[j] == s[j] % 128,
            forall|j: int| 0 <= j < chunks(tag_bytes).len() - 1 ==> s[j] >= 128,
            chunks(tag_bytes).len() > 0 ==> (last_encountered_msb <==> s[chunks(tag_bytes).len() - 1] >= 128),
            !last_encountered_msb ==> chunks(tag_bytes).len() > 0,
        decreases 12 - chunks(tag_bytes).len(),
    {
        let ghost n = chunks(tag_bytes).len();
        proof {
            lemma_advanced_step(*old(bytes), n);
            lemma_advanced_remaining(*old(bytes), n + 1);
            lemma_advanced_remaining(*old(bytes), n);
            lemma_terminator_from(s, n);
        }
        match bytes.next() {
            Some(byte) => {
                assert(byte == s[n as int]);
                assert((byte & 0x80 != 0) == (byte >= 128) && (byte & 0x7F) == byte % 128) by (bit_vector);
                last_encountered_msb = byte & 0x80 != 0;
                if !chunks_push(&mut tag_bytes, byte & 0x7F) {
                    return Err(DecodeError::TooLargeVarint);
                }
            },
            None => {
                if chunks_as_slice(&tag_bytes).len() != 0 {
                    return Err(DecodeError::UnexpectedEndOfBuffer);
                } else {
                    return Err(DecodeError::EmptyBuffer);
                }
            },
        }
    }
    let collected = chunks_as_slice(&tag_bytes);
    let ghost n = collected@.len();
    proof {
        lemma_terminator_from(s, (n - 1) as nat);
        lemma2_to64();
    }
    // Put the chunks together, least significant first.
    let mut result: u64 = 0;
    let mut i: usize = 0;
    while i < collected.len()
        invariant
            i <= n,
            n == collected@.len(),
            s == old(bytes).remaining(),
            *bytes == advanced(*old(bytes), n),
            bytes.remaining() == s.skip(n as int),
            0 < n <= 11,
            n <= s.len(),
            varint_terminator(s) == n - 1,
            forall|j: int| 0 <= j < n ==> collected@[j] == s[j] % 128,
            s[n - 1] < 128,
            i <= 9 ==> result == varint_payload(s, i as nat) && result < pow2(7 * i as nat),
            i >= 10 ==> result == varint_payload(s, 10) % 0x1_0000_0000_0000_0000,
            i == 11 ==> s[10] == 1,
        decreases n - i,
    {
        let byte = collected[i];
        if i < 10 {
            proof {
                if i < 9 {
                    lemma_digit_within(result, byte, i as nat);
                } else {
                    lemma_digit_across(result, byte);
                }
            }
            result |= (byte as u64) << ((7 * i) as u64);
        } else {
            // An eleventh byte carries no bits of the value. A lone `1` is
            // how some encoders end a sign-extended number; anything else is
            // too much.
            if !(i == 10 && byte == 0x01) {
                return Err(DecodeError::TooLargeVarint);
            }
        }
        i += 1;
    }
    proof {
        if n <= 9 {
            vstd::arithmetic::power2::lemma2_to64_rest();
            if 7 * n < 63 {
                lemma_pow2_strictly_increases(7 * n, 63);
            }
        }
    }
    Ok(result)
}

/// Reads a varint that must fit in 32 bits.
pub fn leb128_u32<R: Reader>(bytes: &mut R) -> (r: Result<u32, DecodeError>)
    ensures
        reads(*old(bytes), *final(bytes), r, parse_varint_u32(old(bytes).remaining())),
{
    let val = match leb128(bytes) {
        Ok(val) => val,
        Err(e) => {
            return Err(e);
        },
    };
    assert((((val & 0xFF_FF_FF_FF_00_00_00_00) >> 32) != 0) == (val > 0xFFFF_FFFF) && (val & 0xFF_FF_FF_FF)
        <= 0xFFFF_FFFF && (val <= 0xFFFF_FFFF ==> (val & 0xFF_FF_FF_FF) == val)) by (bit_vector);
    if ((val & 0xFF_FF_FF_FF_00_00_00_00) >> 32) != 0 {
        Err(DecodeError::TooLargeVarint)
    } else {
        Ok((val & 0xFF_FF_FF_FF) as u32)
    }
}

/// Reads a varint as the signed number that its 64 bits stand for.
pub fn leb128_i64<R: Reader>(bytes: &mut R) -> (r: Result<i64, DecodeError>)
    ensures
        reads(*old(bytes), *final(bytes), r, parse_varint_i64(old(bytes).remaining())),
{
    let val = match leb128(bytes) {
        Ok(val) => val,
        Err(e) => {
            return Err(e);
        },
    };
    assert(val as i64 == if val >= 0x8000_0000_0000_0000 {
        val - 0x1_0000_0000_0000_0000
    } else {
        val as int
    }) by (bit_vector);
    Ok(#[verifier::truncate] (val as i64))
}

/// Reads a varint as a signed number that must fit in 32 bits.
pub fn leb128_i32<R: Reader>(bytes: &mut R) -> (r: Result<i32, DecodeError>)
    ensures
        reads(*old(bytes), *final(bytes), r, parse_varint_i32(old(bytes).remaining())),
{
    let val = match leb128_i64(bytes) {
        Ok(val) => val,
        Err(e) => {
            return Err(e);
        },
    };
    if val < -0x8000_0000 || val > 0x7FFF_FFFF {
        Err(DecodeError::TooLargeVarint)
    } else {
        Ok(val as i32)
    }
}

/// Reads a tag: the number of a field and the wire type of its value.
pub fn tag<R: Reader>(bytes: &mut R) -> (r: Result<(u32, u8), DecodeError>)
    ensures
        reads(*old(bytes), *final(bytes), r, parse_tag(old(bytes).remaining())),
{
    let val = match leb128_u32(bytes) {
        Ok(val) => val,
        Err(e) => {
            return Err(e);
        },
    };
    // The wire type is in the three lowest bits, the field number in the 29
    // bits above them.
    assert((val & 0b0111) == val % 8 && ((val & 0xFF_FF_FF_F8) >> 3) == val / 8) by (bit_vector);
    let wire_type = (val & 0b0111) as u8;
    let field_number = (val & 0xFF_FF_FF_F8) >> 3;
    Ok((field_number, wire_type))
}

/// `String::from_utf8` of std: the text that `payload` is the UTF-8 form
/// of, or nothing when it is the UTF-8 form of no text.
#[verifier::external_body]
fn text_from_utf8(payload: Vec<u8>) -> (text: Option<String>)
    ensures
        text is Some <==> vstd::utf8::valid_utf8(payload@),
        text matches Some(t) ==> t@ == vstd::utf8::decode_utf8(payload@),
{
    String::from_utf8(payload).ok()
}

/// Reads a run of bytes for a destination that holds at most `capacity`
/// of them.
pub fn bytes_within<R: Reader>(source: &mut R, capacity: usize, field_name: &'static str) -> (r: Result<
    Vec<u8>,
    DecodeError,
>)
    ensures
        match parse_bytes(old(source).remaining(), capacity as nat, field_name).result {
            Ok(payload) => r matches Ok(v) && v@ == payload,
            Err(e) => r matches Err(f) && f == e,
        },
        parse_bytes(old(source).remaining(), capacity as nat, field_name).consumed <= old(
            source,
        ).remaining().len(),
        *final(source) == advanced(
            *old(source),
            parse_bytes(old(source).remaining(), capacity as nat, field_name).consumed,
        ),
        final(source).remaining() == old(source).remaining().skip(
            parse_bytes(old(source).remaining(), capacity as nat, field_name).consumed as int,
        ),
{
    let ghost s = source.remaining();
    let bufsize = match leb128_u32(source) {
        Ok(bufsize) => bufsize,
        Err(e) => {
            return Err(e);
        },
    };
    if bufsize as usize > capacity {
        return Err(DecodeError::FieldOverflow(field_name));
    }
    let ghost head = parse_varint_u32(s).consumed;
    let ghost rest = s.skip(head as int);
    let mut buf: Vec<u8> = Vec::new();
    let mut i: u32 = 0;
    proof {
        lemma_advanced_remaining(*source, 0);
    }
    while i < bufsize
        invariant
            i <= bufsize,
            s == old(source).remaining(),
            parse_varint_u32(s).result == Ok::<u32, DecodeError>(bufsize),
            parse_varint_u32(s).consumed == head,
            bufsize <= capacity,
            head <= s.len(),
            rest == s.skip(head as int),
            i <= rest.len(),
            *source == advanced(*old(source), head + i as nat),
            source.remaining() == rest.skip(i as int),
            buf@ == rest.take(i as int),
        decreases bufsize - i,
    {
        proof {
            lemma_advanced_step(*old(source), head + i as nat);
            source.lemma_after_next();
            if i < rest.len() {
                assert(rest.skip(i as int).skip(1) == rest.skip(i + 1));
            }
            assert(rest.skip(i as int) == s.skip(head + i));
        }
        match source.next() {
            Some(byte) => {
                buf.push(byte);
                assert(rest.take(i as int).push(rest[i as int]) == rest.take(i + 1));
            },
            None => {
                assert(s.skip(s.len() as int) == rest.skip(i as int));
                return Err(DecodeError::UnexpectedEndOfBuffer);
            },
        }
        i += 1;
    }
    assert(rest.skip(i as int) == s.skip(head + i));
    Ok(buf)
}

/// Reads text for a destination that holds at most `capacity` bytes of
/// UTF-8.
pub fn string_within<R: Reader>(source: &mut R, capacity: usize, field_name: &'static str) -> (r: Result<
    String,
    DecodeError,
>)
    ensures
        match parse_string(old(source).remaining(), capacity as nat, field_name).result {
            Ok(text) => r matches Ok(t) && t@ == text,
            Err(e) => r matches Err(f) && f == e,
        },
        parse_string(old(source).remaining(), capacity as nat, field_name).consumed <= old(
            source,
        ).remaining().len(),
        *final(source) == advanced(
            *old(source),
            parse_string(old(source).remaining(), capacity as nat, field_name).consumed,
        ),
        final(source).remaining() == old(source).remaining().skip(
            parse_string(old(source).remaining(), capacity as nat, field_name).consumed as int,
        ),
{
    let payload = match bytes_within(source, capacity, field_name) {
        Ok(payload) => payload,
        Err(e) => {
            return Err(e);
        },
    };
    match text_from_utf8(payload) {
        Some(text) => Ok(text),
        None => Err(DecodeError::StringParseError),
    }
}

/// Reads text for a destination that holds at most `SIZE` bytes of UTF-8.
/// A longer text is refused by the name of its field as soon as its length
/// is known.
pub fn string<const SIZE: usize, R: Reader>(source: &mut R, field_name: &'static str) -> (r: Result<
    String,
    DecodeError,
>)
    ensures
        match parse_string(old(source).remaining(), SIZE as nat, field_name).result {
            Ok(text) => r matches Ok(t) && t@ == text,
            Err(e) => r matches Err(f) && f == e,
        },
        parse_string(old(source).remaining(), SIZE as nat, field_name).consumed <= old(
            source,
        ).remaining().len(),
        *final(source) == advanced(
            *old(source),
            parse_string(old(source).remaining(), SIZE as nat, field_name).consumed,
        ),
        final(source).remaining() == old(source).remaining().skip(
            parse_string(old(source).remaining(), SIZE as nat, field_name).consumed as int,
        ),
{
    string_within(source, SIZE, field_name)
}

/// Reads a signed 32-bit number sent as a varint.
pub fn int32<R: Reader>(bytes: &mut R, _field_name: &str) -> (r: Result<i32, DecodeError>)
    ensures
        reads(*old(bytes), *final(bytes), r, parse_varint_i32(old(bytes).remaining())),
{
    leb128_i32(bytes)
}

/// Reads a signed 64-bit number sent as a varint.
pub fn int64<R: Reader>(bytes: &mut R, _field_name: &str) -> (r: Result<i64, DecodeError>)
    ensures
        reads(*old(bytes), *final(bytes), r, parse_varint_i64(old(bytes).remaining())),
{
    leb128_i64(bytes)
}

/// Reads an unsigned 32-bit number sent as a varint.
pub fn uint32<R: Reader>(bytes: &mut R, _field_name: &str) -> (r: Result<u32, DecodeError>)
    ensures
        reads(*old(bytes), *final(bytes), r, parse_varint_u32(old(bytes).remaining())),
{
    leb128_u32(bytes)
}

/// Reads an unsigned 64-bit number sent as a varint.
pub fn uint64<R: Reader>(bytes: &mut R, _field_name: &str) -> (r: Result<u64, DecodeError>)
    ensures
        reads(*old(bytes), *final(bytes), r, parse_varint(old(bytes).remaining())),
{
    leb128(bytes)
}

/// Reads a signed 32-bit number sent as the varint of its zigzag image.
pub fn sint32<R: Reader>(bytes: &mut R, _field_name: &str) -> (r: Result<i32, DecodeError>)
    ensures
        reads(*old(bytes), *final(bytes), r, parse_sint32(old(bytes).remaining())),
{
    let value = match leb128_u32(bytes) {
        Ok(value) => value,
        Err(e) => {
            return Err(e);
        },
    };
    // The lowest bit is the sign, the bits above it the magnitude: an even
    // image is half of itself, an odd one the complement of that half.
    assert((value >> 1) <= 0x7FFF_FFFF && (value & 1) <= 1) by (bit_vector);
    let abs = (value >> 1) as i32;
    let sign = (value & 1) as i32;
    let fill: i32 = -sign;
    assert((abs ^ fill) == if value % 2 == 0 {
        (value / 2) as int
    } else {
        -(value / 2) - 1
    }) by (bit_vector)
        requires
            abs == (value >> 1) as i32,
            fill == if (value & 1) == 1 { -1i32 } else { 0i32 },
    ;
    Ok(abs ^ fill)
}

/// Reads a signed 64-bit number sent as the varint of its zigzag image.
pub fn sint64<R: Reader>(bytes: &mut R, _field_name: &str) -> (r: Result<i64, DecodeError>)
    ensures
        reads(*old(bytes), *final(bytes), r, parse_sint64(old(bytes).remaining())),
{
    let value = match leb128(bytes) {
        Ok(value) => value,
        Err(e) => {
            return Err(e);
        },
    };
    assert((value >> 1) <= 0x7FFF_FFFF_FFFF_FFFF && (value & 1) <= 1) by (bit_vector);
    let abs = (value >> 1) as i64;
    let sign = (value & 1) as i64;
    let fill: i64 = -sign;
    assert((abs ^ fill) == if value % 2 == 0 {
        (value / 2) as int
    } else {
        -(value / 2) - 1
    }) by (bit_vector)
        requires
            abs == (value >> 1) as i64,
            fill == if (value & 1) == 1 { -1i64 } else { 0i64 },
    ;
    Ok(abs ^ fill)
}

/// Takes up to `count` bytes from the source and drops them.
fn discard<R: Reader>(bytes: &mut R, count: u32)
    ensures
        *final(bytes) == advanced(
            *old(bytes),
            if old(bytes).remaining().len() < count {
                old(bytes).remaining().len()
            } else {
                count as nat
            },
        ),
        final(bytes).remaining() == old(bytes).remaining().skip(
            if old(bytes).remaining().len() < count {
                old(bytes).remaining().len() as int
            } else {
                count as int
            },
        ),
{
    let ghost s = bytes.remaining();
    let mut i: u32 = 0;
    proof {
        lemma_advanced_remaining(*bytes, 0);
    }
    while i < count
        invariant
            i <= count,
            i <= s.len(),
            s == old(bytes).remaining(),
            *bytes == advanced(*old(bytes), i as nat),
            bytes.remaining() == s.skip(i as int),
        decreases count - i,
    {
        proof {
            lemma_advanced_step(*old(bytes), i as nat);
            bytes.lemma_after_next();
            if i < s.len() {
                assert(s.skip(i as int).skip(1) == s.skip(i + 1));
            }
        }
        match bytes.next() {
            Some(_) => {},
            None => {
                return ;
            },
        }
        i += 1;
    }
}

/// Passes over the value of a field that no descriptor accounts for. How
/// far the value reaches is told by its wire type alone; a wire type that
/// does not tell it, such as that of a group, is refused.
pub fn unknown<R: Reader>(bytes: &mut R, wire_type: u8) -> (r: Result<(), DecodeError>)
    ensures
        reads(*old(bytes), *final(bytes), r, parse_unknown(old(bytes).remaining(), wire_type)),
{
    proof {
        lemma_advanced_remaining(*bytes, 0);
    }
    if wire_type == wire_types::VARINT {
        match leb128(bytes) {
            Ok(_) => Ok(()),
            Err(e) => Err(e),
        }
    } else if wire_type == wire_types::B32 {
        discard(bytes, 4);
        Ok(())
    } else if wire_type == wire_types::B64 {
        discard(bytes, 8);
        Ok(())
    } else if wire_type == wire_types::LENGTHDELIMITED {
        let ghost s = bytes.remaining();
        let bufsize = match leb128_u32(bytes) {
            Ok(bufsize) => bufsize,
            Err(e) => {
                return Err(e);
            },
        };
        let ghost head = parse_varint_u32(s).consumed;
        let ghost rest = s.skip(head as int);
        let ghost taken = if rest.len() < bufsize { rest.len() } else { bufsize as nat };
        discard(bytes, bufsize);
        proof {
            crate::traits::lemma_advanced_add(*old(bytes), head, taken);
            assert(rest.skip(taken as int) == s.skip((head + taken) as int));
        }
        Ok(())
    } else {
        Err(DecodeError::UnsupportedWireType(wire_type))
    }
}

/// Reads four bytes, or says how far short of four the source fell: not
/// at all when it held nothing, in the middle otherwise.
fn take4<R: Reader>(bytes: &mut R) -> (r: Result<[u8; 4], DecodeError>)
    ensures
        old(bytes).remaining().len() == 0 ==> r == Err::<[u8; 4], DecodeError>(DecodeError::EmptyBuffer),
        0 < old(bytes).remaining().len() < 4 ==> r == Err::<[u8; 4], DecodeError>(
            DecodeError::UnexpectedEndOfBuffer,
        ),
        old(bytes).remaining().len() >= 4 ==> (r matches Ok(a) && a@ == old(bytes).remaining().take(4)),
        *final(bytes) == advanced(
            *old(bytes),
            if old(bytes).remaining().len() < 4 {
                old(bytes).remaining().len()
            } else {
                4
            },
        ),
        final(bytes).remaining() == old(bytes).remaining().skip(
            if old(bytes).remaining().len() < 4 {
                old(bytes).remaining().len() as int
            } else {
                4
            },
        ),
{
    let ghost s = bytes.remaining();
    let mut slice: [u8; 4] = [0, 0, 0, 0];
    let mut i: usize = 0;
    proof {
        lemma_advanced_remaining(*bytes, 0);
    }
    while i < 4
        invariant
            i <= 4,
            i <= s.len(),
            s == old(bytes).remaining(),
            *bytes == advanced(*old(bytes), i as nat),
            bytes.remaining() == s.skip(i as int),
            forall|j: int| 0 <= j < i ==> slice@[j] == s[j],
        decreases 4 - i,
    {
        proof {
            lemma_advanced_step(*old(bytes), i as nat);
            bytes.lemma_after_next();
            if i < s.len() {
                assert(s.skip(i as int).skip(1) == s.skip(i + 1));
            }
        }
        match bytes.next() {
            Some(byte) => {
                slice[i] = byte;
            },
            None => {
                if i == 0 {
                    return Err(DecodeError::EmptyBuffer);
                } else {
                    return Err(DecodeError::UnexpectedEndOfBuffer);
                }
            },
        }
        i += 1;
    }
    assert(slice@ == s.take(4));
    Ok(slice)
}

/// Reads eight bytes, or says how far short of eight the source fell.
fn take8<R: Reader>(bytes: &mut R) -> (r: Result<[u8; 8], DecodeError>)
    ensures
        old(bytes).remaining().len() == 0 ==> r == Err::<[u8; 8], DecodeError>(DecodeError::EmptyBuffer),
        0 < old(bytes).remaining().len() < 8 ==> r == Err::<[u8; 8], DecodeError>(
            DecodeError::UnexpectedEndOfBuffer,
        ),
        old(bytes).remaining().len() >= 8 ==> (r matches Ok(a) && a@ == old(bytes).remaining().take(8)),
        *final(bytes) == advanced(
            *old(bytes),
            if old(bytes).remaining().len() < 8 {
                old(bytes).remaining().len()
            } else {
                8
            },
        ),
        final(bytes).remaining() == old(bytes).remaining().skip(
            if old(bytes).remaining().len() < 8 {
                old(bytes).remaining().len() as int
            } else {
                8
            },
        ),
{
    let ghost s = bytes.remaining();
    let mut slice: [u8; 8] = [0, 0, 0, 0, 0, 0, 0, 0];
    let mut i: usize = 0;
    proof {
        lemma_advanced_remaining(*bytes, 0);
    }
    while i < 8
        invariant
            i <= 8,
            i <= s.len(),
            s == old(bytes).remaining(),
            *bytes == advanced(*old(bytes), i as nat),
            bytes.remaining() == s.skip(i as int),
            forall|j: int| 0 <= j < i ==> slice@[j] == s[j],
        decreases 8 - i,
    {
        proof {
            lemma_advanced_step(*old(bytes), i as nat);
            bytes.lemma_after_next();
            if i < s.len() {
                assert(s.skip(i as int).skip(1) == s.skip(i + 1));
            }
        }
        match bytes.next() {
            Some(byte) => {
                slice[i] = byte;
            },
            None => {
                if i == 0 {
                    return Err(DecodeError::EmptyBuffer);
                } else {
                    return Err(DecodeError::UnexpectedEndOfBuffer);
                }
            },
        }
        i += 1;
    }
    assert(slice@ == s.take(8));
    Ok(slice)
}

/// Four bytes, least significant first, stand for their little-endian
/// value.
proof fn lemma_le_value4(s: Seq<u8>)
    requires
        s.len() == 4,
    ensures
        le_value(s) == s[0] + 256 * (s[1] + 256 * (s[2] + 256 * s[3])),
{
    reveal_with_fuel(le_value, 5);
    assert(s.skip(1)[0] == s[1]);
    assert(s.skip(1).skip(1)[0] == s[2]);
    assert(s.skip(1).skip(1).skip(1)[0] == s[3]);
}

/// Eight bytes, least significant first, stand for their little-endian
/// value.
proof fn lemma_le_value8(s: Seq<u8>)
    requires
        s.len() == 8,
    ensures
        le_value(s) == le_value(s.take(4)) + 0x1_0000_0000 * le_value(s.skip(4)),
{
    reveal_with_fuel(le_value, 5);
    let a = s.take(4);
    let b = s.skip(4);
    lemma_le_value4(a);
    assert(s.skip(1)[0] == s[1]);
    assert(s.skip(1).skip(1)[0] == s[2]);
    assert(s.skip(1).skip(1).skip(1)[0] == s[3]);
    assert(s.skip(1).skip(1).skip(1).skip(1) == b);
}

/// Reads an unsigned 32-bit number sent as four bytes, least significant
/// first.
pub fn fixed32<R: Reader>(bytes: &mut R, _field_name: &str) -> (r: Result<u32, DecodeError>)
    ensures
        reads(*old(bytes), *final(bytes), r, parse_fixed32(old(bytes).remaining())),
{
    let slice = match take4(bytes) {
        Ok(slice) => slice,
        Err(e) => {
            return Err(e);
        },
    };
    let b0 = slice[0] as u32;
    let b1 = slice[1] as u32;
    let b2 = slice[2] as u32;
    let b3 = slice[3] as u32;
    proof {
        lemma_le_value4(slice@);
    }
    assert((b0 | (b1 << 8) | (b2 << 16) | (b3 << 24)) == b0 + 256 * (b1 + 256 * (b2 + 256 * b3)))
        by (bit_vector)
        requires
            b0 < 256,
            b1 < 256,
            b2 < 256,
            b3 < 256,
    ;
    Ok(b0 | (b1 << 8) | (b2 << 16) | (b3 << 24))
}

/// Reads an unsigned 64-bit number sent as eight bytes, least significant
/// first.
pub fn fixed64<R: Reader>(bytes: &mut R, _field_name: &str) -> (r: Result<u64, DecodeError>)
    ensures
        reads(*old(bytes), *final(bytes), r, parse_fixed64(old(bytes).remaining())),
{
    let slice = match take8(bytes) {
        Ok(slice) => slice,
        Err(e) => {
            return Err(e);
        },
    };
    let b0 = slice[0] as u64;
    let b1 = slice[1] as u64;
    let b2 = slice[2] as u64;
    let b3 = slice[3] as u64;
    let b4 = slice[4] as u64;
    let b5 = slice[5] as u64;
    let b6 = slice[6] as u64;
    let b7 = slice[7] as u64;
    proof {
        lemma_le_value8(slice@);
        lemma_le_value4(slice@.take(4));
        lemma_le_value4(slice@.skip(4));
    }
    assert((b0 | (b1 << 8) | (b2 << 16) | (b3 << 24) | (b4 << 32) | (b5 << 40) | (b6 << 48) | (b7 << 56))
        == (b0 + 256 * (b1 + 256 * (b2 + 256 * b3))) + 0x1_0000_0000 * (b4 + 256 * (b5 + 256 * (b6 + 256
        * b7)))) by (bit_vector)
        requires
            b0 < 256,
            b1 < 256,
            b2 < 256,
            b3 < 256,
            b4 < 256,
            b5 < 256,
            b6 < 256,
            b7 < 256,
    ;
    Ok(b0 | (b1 << 8) | (b2 << 16) | (b3 << 24) | (b4 << 32) | (b5 << 40) | (b6 << 48) | (b7 << 56))
}

/// Reads a signed 32-bit number sent as the four bytes of its two's
/// complement pattern.
pub fn sfixed32<R: Reader>(bytes: &mut R, field_name: &str) -> (r: Result<i32, DecodeError>)
    ensures
        reads(*old(bytes), *final(bytes), r, parse_sfixed32(old(bytes).remaining())),
{
    match fixed32(bytes, field_name) {
        Ok(u) => {
            assert(u as i32 == if u >= 0x8000_0000 {
                u - 0x1_0000_0000
            } else {
                u as int
            }) by (bit_vector);
            Ok(#[verifier::truncate] (u as i32))
        },
        Err(e) => Err(e),
    }
}

/// Reads a signed 64-bit number sent as the eight bytes of its two's
/// complement pattern.
pub fn sfixed64<R: Reader>(bytes: &mut R, field_name: &str) -> (r: Result<i64, DecodeError>)
    ensures
        reads(*old(bytes), *final(bytes), r, parse_sfixed64(old(bytes).remaining())),
{
    match fixed64(bytes, field_name) {
        Ok(u) => {
            assert(u as i64 == if u >= 0x8000_0000_0000_0000 {
                u - 0x1_0000_0000_0000_0000
            } else {
                u as int
            }) by (bit_vector);
            Ok(#[verifier::truncate] (u as i64))
        },
        Err(e) => Err(e),
    }
}

/// Reads a boolean sent as one byte. Only the lowest bit of the byte
/// counts.
pub fn bool<R: Reader>(bytes: &mut R, _field_name: &str) -> (r: Result<bool, DecodeError>)
    ensures
        reads(*old(bytes), *final(bytes), r, parse_bool(old(bytes).remaining())),
{
    proof {
        lemma_advanced_remaining(*bytes, 0);
        lemma_advanced_remaining(*bytes, 1);
        assert(advanced(*bytes, 1) == bytes.after_next()) by {
            reveal_with_fuel(advanced, 2);
        }
    }
    match bytes.next() {
        Some(byte) => {
            assert((byte & 1 != 0) == (byte % 2 == 1)) by (bit_vector);
            Ok(byte & 1 != 0)
        },
        None => Err(DecodeError::EmptyBuffer),
    }
}

/// Reads a run of bytes for a destination that holds at most `SIZE` of
/// them. A longer run is refused by the name of its field as soon as its
/// length is known.
pub fn bytes<const SIZE: usize, R: Reader>(source: &mut R, field_name: &'static str) -> (r: Result<
    Vec<u8>,
    DecodeError,
>)
    ensures
        match parse_bytes(old(source).remaining(), SIZE as nat, field_name).result {
            Ok(payload) => r matches Ok(v) && v@ == payload,
            Err(e) => r matches Err(f) && f == e,
        },
        parse_bytes(old(source).remaining(), SIZE as nat, field_name).consumed <= old(
            source,
        ).remaining().len(),
        *final(source) == advanced(
            *old(source),
            parse_bytes(old(source).remaining(), SIZE as nat, field_name).consumed,
        ),
        final(source).remaining() == old(source).remaining().skip(
            parse_bytes(old(source).remaining(), SIZE as nat, field_name).consumed as int,
        ),
{
    bytes_within(source, SIZE, field_name)
}

} // verus!
