//! Encoders: each appends the wire form of one value to a sink and reports
//! how many bytes that took.

use vstd::prelude::*;
use vstd::string::StringSliceAdditionalSpecFns;
use crate::traits::{emits, lemma_offered_then, state_of, Writer, WriterError};
use crate::wire::{
    bool_encoding, delimited_encoding, le_bytes, tag_encoding, tag_fits, unsigned32, unsigned64,
    varint_encoding, zigzag,
};

verus! {

/// Offers one byte to the sink.
fn write_u8<W: Writer>(bytes: &mut W, input: u8) -> (r: Result<usize, WriterError>)
    ensures
        emits(*old(bytes), *final(bytes), r, seq![input]),
{
    let arr = [input];
    assert(arr@ == seq![input]);
    write(bytes, arr.as_slice())
}

/// Offers a run of bytes to the sink, one by one, and stops at the first
/// that is refused.
fn write<W: Writer>(bytes: &mut W, input: &[u8]) -> (r: Result<usize, WriterError>)
    ensures
        emits(*old(bytes), *final(bytes), r, input@),
{
    let mut len: usize = 0;
    while len < input.len()
        invariant
            len <= input.len(),
            emits(*old(bytes), *bytes, Ok(len), input@.take(len as int)),
        decreases input.len() - len,
    {
        match bytes.write(input[len]) {
            Ok(()) => {},
            Err(e) => {
                assert(input@.take(len as int) == input@.take(old(bytes).room() as int));
                return Err(e);
            },
        }
        assert(input@.take(len as int).push(input@[len as int]) == input@.take(len + 1));
        len += 1;
    }
    assert(input@.take(len as int) == input@);
    Ok(len)
}

/// Writes `input` as a varint.
pub fn leb128<W: Writer>(bytes: &mut W, input: &u64) -> (r: Result<usize, WriterError>)
    ensures
        emits(*old(bytes), *final(bytes), r, varint_encoding(*input as nat)),
{
    let ghost all = varint_encoding(*input as nat);
    let ghost mut done: Seq<u8> = Seq::empty();
    let mut bytes_written: usize = 0;
    let mut left: u64 = *input;
    assert(done + varint_encoding(left as nat) == all);
    // A varint is cut into chunks of seven bits; the high bit of a byte says
    // that another chunk follows.
    while left >= 0x80
        invariant
            all == varint_encoding(*input as nat),
            emits(*old(bytes), *bytes, Ok(bytes_written), done),
            done + varint_encoding(left as nat) == all,
        decreases left,
    {
        assert(((left & 0x7F) | 0x80) == 128 + left % 128 && left >> 7 == left / 128 && (left & 0x7F)
            | 0x80 < 256) by (bit_vector);
        let chunk = ((left & 0x7F) | 0x80) as u8;
        let rest = left >> 7;
        assert(done + varint_encoding(left as nat) == done.push(chunk) + varint_encoding(rest as nat));
        assert(done + seq![chunk] == done.push(chunk));
        let ghost s1 = state_of(*bytes);
        let step = write_u8(bytes, chunk);
        proof {
            lemma_offered_then(
                state_of(*old(bytes)),
                s1,
                state_of(*bytes),
                Ok(bytes_written),
                step,
                done,
                seq![chunk],
            );
        }
        match step {
            Ok(n) => {
                bytes_written += n;
            },
            Err(e) => {
                proof {
                    lemma_offered_then(
                        state_of(*old(bytes)),
                        state_of(*bytes),
                        state_of(*bytes),
                        step,
                        step,
                        done.push(chunk),
                        varint_encoding(rest as nat),
                    );
                }
                return Err(e);
            },
        }
        proof {
            done = done.push(chunk);
        }
        left = rest;
    }
    assert(left < 0x80 ==> (left & 0xFF) == left) by (bit_vector);
    let last = (left & 0xFF) as u8;
    assert(varint_encoding(left as nat) == seq![last]);
    let ghost s1 = state_of(*bytes);
    let step = write_u8(bytes, last);
    proof {
        lemma_offered_then(
            state_of(*old(bytes)),
            s1,
            state_of(*bytes),
            Ok(bytes_written),
            step,
            done,
            seq![last],
        );
    }
    match step {
        Ok(n) => Ok(bytes_written + n),
        Err(e) => Err(e),
    }
}

/// Writes `input` as a varint.
pub fn leb128_u32<W: Writer>(bytes: &mut W, input: &u32) -> (r: Result<usize, WriterError>)
    ensures
        emits(*old(bytes), *final(bytes), r, varint_encoding(*input as nat)),
{
    leb128(bytes, &(*input as u64))
}

/// Writes the 64-bit two's complement pattern of `input` as a varint.
pub fn leb128_i64<W: Writer>(bytes: &mut W, input: &i64) -> (r: Result<usize, WriterError>)
    ensures
        emits(*old(bytes), *final(bytes), r, varint_encoding(unsigned64(*input as int))),
{
    let value = *input;
    assert(value as u64 == if value < 0 {
        value + 0x1_0000_0000_0000_0000
    } else {
        value as int
    }) by (bit_vector);
    leb128(bytes, &(#[verifier::truncate] (value as u64)))
}

/// Writes `input`, widened to 64 bits with its sign, as a varint. A
/// negative number always takes ten bytes.
pub fn leb128_i32<W: Writer>(bytes: &mut W, input: &i32) -> (r: Result<usize, WriterError>)
    ensures
        emits(*old(bytes), *final(bytes), r, varint_encoding(unsigned64(*input as int))),
{
    let value = *input;
    assert(value as u64 == if value < 0 {
        value + 0x1_0000_0000_0000_0000
    } else {
        value as int
    }) by (bit_vector);
    leb128(bytes, &(#[verifier::truncate] (value as u64)))
}

/// Writes the tag of a field: its number and its wire type, packed into one
/// varint. A field number of 30 bits or more, or a wire type of four bits
/// or more, is refused before anything is written.
pub fn tag<W: Writer>(bytes: &mut W, field_number: &u32, wire_type: &u8) -> (r: Result<
    usize,
    WriterError,
>)
    ensures
        tag_fits(*field_number, *wire_type) ==> emits(
            *old(bytes),
            *final(bytes),
            r,
            tag_encoding(*field_number, *wire_type),
        ),
        !tag_fits(*field_number, *wire_type) ==> r == Err::<usize, WriterError>(
            WriterError::OverflowError,
        ) && *final(bytes) == *old(bytes),
{
    let number = *field_number;
    let kind = *wire_type;
    // The wire type takes the three lowest bits, the field number the 29
    // bits above them.
    assert(((number & 0xE0_00_00_00) != 0) == (number >= 0x2000_0000)) by (bit_vector);
    assert(((kind & 0xF8) != 0) == (kind >= 8)) by (bit_vector);
    if (number & 0xE0_00_00_00) != 0 {
        return Err(WriterError::OverflowError);
    }
    if (kind & 0xF8) != 0 {
        return Err(WriterError::OverflowError);
    }
    assert(number < 0x2000_0000 && kind < 8 ==> (((number << 3) & 0xFF_FF_FF_F8) | ((kind & 0b0111) as u32))
        == number * 8 + kind) by (bit_vector);
    leb128_u32(bytes, &(((number << 3) & 0xFF_FF_FF_F8) | ((kind & 0b0111) as u32)))
}

/// Writes `input` as text: the length of its UTF-8 form as a varint, then
/// the UTF-8 form.
pub fn string<W: Writer>(bytes: &mut W, input: &str) -> (r: Result<usize, WriterError>)
    ensures
        emits(*old(bytes), *final(bytes), r, delimited_encoding(input.spec_bytes())),
{
    self::bytes(bytes, input.as_bytes())
}

/// Writes `input` as a varint, sign-extended to 64 bits.
pub fn int32<W: Writer>(bytes: &mut W, input: &i32) -> (r: Result<usize, WriterError>)
    ensures
        emits(*old(bytes), *final(bytes), r, varint_encoding(unsigned64(*input as int))),
{
    leb128_i32(bytes, input)
}

/// Writes `input` as a varint.
pub fn int64<W: Writer>(bytes: &mut W, input: &i64) -> (r: Result<usize, WriterError>)
    ensures
        emits(*old(bytes), *final(bytes), r, varint_encoding(unsigned64(*input as int))),
{
    leb128_i64(bytes, input)
}

/// Writes `input` as a varint.
pub fn uint32<W: Writer>(bytes: &mut W, input: &u32) -> (r: Result<usize, WriterError>)
    ensures
        emits(*old(bytes), *final(bytes), r, varint_encoding(*input as nat)),
{
    leb128_u32(bytes, input)
}

/// Writes `input` as a varint.
pub fn uint64<W: Writer>(bytes: &mut W, input: &u64) -> (r: Result<usize, WriterError>)
    ensures
        emits(*old(bytes), *final(bytes), r, varint_encoding(*input as nat)),
{
    leb128(bytes, input)
}

/// Writes the zigzag image of `input` as a varint, so that a number close
/// to zero stays short whatever its sign.
pub fn sint32<W: Writer>(bytes: &mut W, input: &i32) -> (r: Result<usize, WriterError>)
    ensures
        emits(*old(bytes), *final(bytes), r, varint_encoding(zigzag(*input as int))),
{
    let value = *input;
    // Doubling makes room for the sign in the lowest bit; the exclusive or
    // with a word of sign bits folds the negative numbers onto the odd ones.
    let fill: u32 = if value < 0 { 0xFFFF_FFFF } else { 0 };
    let pattern: u32 = #[verifier::truncate] (value as u32);
    assert(((pattern << 1) ^ fill) == if value < 0 {
        -2 * value - 1
    } else {
        2 * value
    }) by (bit_vector)
        requires
            pattern == value as u32,
            fill == if value < 0 { 0xFFFF_FFFFu32 } else { 0u32 },
    ;
    leb128_u32(bytes, &((pattern << 1) ^ fill))
}

/// Writes the zigzag image of `input` as a varint.
pub fn sint64<W: Writer>(bytes: &mut W, input: &i64) -> (r: Result<usize, WriterError>)
    ensures
        emits(*old(bytes), *final(bytes), r, varint_encoding(zigzag(*input as int))),
{
    let value = *input;
    let fill: u64 = if value < 0 { 0xFFFF_FFFF_FFFF_FFFF } else { 0 };
    let pattern: u64 = #[verifier::truncate] (value as u64);
    assert(((pattern << 1) ^ fill) == if value < 0 {
        -2 * value - 1
    } else {
        2 * value
    }) by (bit_vector)
        requires
            pattern == value as u64,
            fill == if value < 0 { 0xFFFF_FFFF_FFFF_FFFFu64 } else { 0u64 },
    ;
    leb128(bytes, &((pattern << 1) ^ fill))
}

/// The four bytes of a number, least significant first.
fn le32(value: u32) -> (r: [u8; 4])
    ensures
        r@ == le_bytes(value as nat, 4),
{
    assert((value & 0xff) == value % 256 && ((value >> 8) & 0xff) == value / 256 % 256 && ((value >> 16)
        & 0xff) == value / 256 / 256 % 256 && ((value >> 24) & 0xff) == value / 256 / 256 / 256 % 256)
        by (bit_vector);
    let r = [
        (value & 0xff) as u8,
        ((value >> 8) & 0xff) as u8,
        ((value >> 16) & 0xff) as u8,
        ((value >> 24) & 0xff) as u8,
    ];
    assert(r@ == le_bytes(value as nat, 4)) by {
        reveal_with_fuel(le_bytes, 5);
    }
    r
}

/// The eight bytes of a number, least significant first.
fn le64(value: u64) -> (r: [u8; 8])
    ensures
        r@ == le_bytes(value as nat, 8),
{
    assert((value & 0xff) == value % 256 && ((value >> 8) & 0xff) == value / 256 % 256 && ((value >> 16)
        & 0xff) == value / 256 / 256 % 256 && ((value >> 24) & 0xff) == value / 256 / 256 / 256 % 256)
        by (bit_vector);
    assert(((value >> 32) & 0xff) == value / 256 / 256 / 256 / 256 % 256 && ((value >> 40) & 0xff) == value
        / 256 / 256 / 256 / 256 / 256 % 256 && ((value >> 48) & 0xff) == value / 256 / 256 / 256 / 256 / 256
        / 256 % 256 && ((value >> 56) & 0xff) == value / 256 / 256 / 256 / 256 / 256 / 256 / 256 % 256)
        by (bit_vector);
    let r = [
        (value & 0xff) as u8,
        ((value >> 8) & 0xff) as u8,
        ((value >> 16) & 0xff) as u8,
        ((value >> 24) & 0xff) as u8,
        ((value >> 32) & 0xff) as u8,
        ((value >> 40) & 0xff) as u8,
        ((value >> 48) & 0xff) as u8,
        ((value >> 56) & 0xff) as u8,
    ];
    assert(r@ == le_bytes(value as nat, 8)) by {
        reveal_with_fuel(le_bytes, 9);
    }
    r
}

/// Writes `input` as four bytes, least significant first.
pub fn fixed32<W: Writer>(bytes: &mut W, input: &u32) -> (r: Result<usize, WriterError>)
    ensures
        emits(*old(bytes), *final(bytes), r, le_bytes(*input as nat, 4)),
{
    let raw = le32(*input);
    write(bytes, raw.as_slice())
}

/// Writes `input` as eight bytes, least significant first.
pub fn fixed64<W: Writer>(bytes: &mut W, input: &u64) -> (r: Result<usize, WriterError>)
    ensures
        emits(*old(bytes), *final(bytes), r, le_bytes(*input as nat, 8)),
{
    let raw = le64(*input);
    write(bytes, raw.as_slice())
}

/// Writes the 32-bit two's complement pattern of `input` as four bytes,
/// least significant first.
pub fn sfixed32<W: Writer>(bytes: &mut W, input: &i32) -> (r: Result<usize, WriterError>)
    ensures
        emits(*old(bytes), *final(bytes), r, le_bytes(unsigned32(*input as int), 4)),
{
    let value = *input;
    assert(value as u32 == if value < 0 {
        value + 0x1_0000_0000
    } else {
        value as int
    }) by (bit_vector);
    let raw = le32(#[verifier::truncate] (value as u32));
    write(bytes, raw.as_slice())
}

/// Writes the 64-bit two's complement pattern of `input` as eight bytes,
/// least significant first.
pub fn sfixed64<W: Writer>(bytes: &mut W, input: &i64) -> (r: Result<usize, WriterError>)
    ensures
        emits(*old(bytes), *final(bytes), r, le_bytes(unsigned64(*input as int), 8)),
{
    let value = *input;
    assert(value as u64 == if value < 0 {
        value + 0x1_0000_0000_0000_0000
    } else {
        value as int
    }) by (bit_vector);
    let raw = le64(#[verifier::truncate] (value as u64));
    write(bytes, raw.as_slice())
}

/// Writes `input` as one byte, `1` for true and `0` for false.
pub fn bool<W: Writer>(bytes: &mut W, input: &bool) -> (r: Result<usize, WriterError>)
    ensures
        emits(*old(bytes), *final(bytes), r, bool_encoding(*input)),
{
    write_u8(bytes, if *input { 1 } else { 0 })
}

/// Writes `input` as a run of bytes: its length as a varint, then the bytes.
pub fn bytes<W: Writer>(buffer: &mut W, input: &[u8]) -> (r: Result<usize, WriterError>)
    ensures
        emits(*old(buffer), *final(buffer), r, delimited_encoding(input@)),
{
    let ghost s0 = state_of(*buffer);
    let head = leb128(buffer, &(input.len() as u64));
    let ghost s1 = state_of(*buffer);
    match head {
        Ok(n) => {
            let body = write(buffer, input);
            proof {
                lemma_offered_then(
                    s0,
                    s1,
                    state_of(*buffer),
                    head,
                    body,
                    varint_encoding(input@.len()),
                    input@,
                );
            }
            match body {
                Ok(m) => Ok(n + m),
                Err(e) => Err(e),
            }
        },
        Err(e) => {
            proof {
                lemma_offered_then(s0, s1, s1, head, head, varint_encoding(input@.len()), input@);
            }
            Err(e)
        },
    }
}

} // verus!
