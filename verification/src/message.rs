//! Message values: what a decoded message holds, field by field, and the
//! mathematical view that contracts speak of.
//!
//! Floating-point fields are held as their bit patterns, `float` in a
//! `u32` and `double` in a `u64`, so that what is sent is what was held,
//! bit for bit.

use vstd::prelude::*;
use vstd::string::StringSliceAdditionalSpecFns;
use crate::decoder;
use crate::decoder::DecodeError;
use crate::encoder;
use crate::schema::ScalarType;
use crate::traits::{advanced, emits, Reader, Writer, WriterError};
use crate::wire::{
    bool_encoding, delimited_encoding, failed, le_bytes, parse_bool, parse_bytes, parse_fixed32,
    parse_fixed64, parse_sfixed32, parse_sfixed64, parse_sint32, parse_sint64, parse_string,
    parse_varint, parse_varint_i32, parse_varint_i64, parse_varint_u32, unsigned32, unsigned64,
    varint_encoding, zigzag, Parsed,
};

verus! {

/// One scalar value.
#[derive(Debug, Clone, PartialEq)]
pub enum Value {
    Int32(i32),
    Int64(i64),
    Uint32(u32),
    Uint64(u64),
    Sint32(i32),
    Sint64(i64),
    Fixed32(u32),
    Fixed64(u64),
    Sfixed32(i32),
    Sfixed64(i64),
    /// The bits of a `double`.
    Double(u64),
    /// The bits of a `float`.
    Float(u32),
    Bool(bool),
    String(String),
    Bytes(Vec<u8>),
}

/// What a variant of a oneof carries.
#[derive(Debug, PartialEq)]
pub enum Payload {
    Scalar(Value),
    Message(Message),
}

/// The variant that a oneof holds.
#[derive(Debug, PartialEq)]
pub struct Chosen {
    /// The index of the variant among the variants of the oneof.
    pub variant: usize,
    /// What the variant carries.
    pub payload: Payload,
}

/// What one field of a message holds.
#[derive(Debug, PartialEq)]
pub enum FieldValue {
    Scalar(Value),
    Repeated(Vec<Value>),
    Oneof(Option<Chosen>),
    Message(Message),
}

/// A message: one entry for each field of its schema, in the order of the
/// schema.
#[derive(Debug, PartialEq)]
pub struct Message {
    pub fields: Vec<FieldValue>,
}

/// A scalar value, as contracts see it.
pub enum ValueView {
    Int32(i32),
    Int64(i64),
    Uint32(u32),
    Uint64(u64),
    Sint32(i32),
    Sint64(i64),
    Fixed32(u32),
    Fixed64(u64),
    Sfixed32(i32),
    Sfixed64(i64),
    Double(u64),
    Float(u32),
    Bool(bool),
    String(Seq<char>),
    Bytes(Seq<u8>),
}

/// What a variant carries, as contracts see it.
pub enum PayloadView {
    Scalar(ValueView),
    Message(MessageView),
}

/// The variant that a oneof holds, as contracts see it.
pub struct ChosenView {
    pub variant: nat,
    pub payload: PayloadView,
}

/// What a field holds, as contracts see it.
pub enum FieldView {
    Scalar(ValueView),
    Repeated(Seq<ValueView>),
    Oneof(Option<ChosenView>),
    Message(MessageView),
}

/// A message, as contracts see it.
pub struct MessageView {
    pub fields: Seq<FieldView>,
}

impl View for Value {
    type V = ValueView;

    open spec fn view(&self) -> ValueView {
        match self {
            Value::Int32(v) => ValueView::Int32(*v),
            Value::Int64(v) => ValueView::Int64(*v),
            Value::Uint32(v) => ValueView::Uint32(*v),
            Value::Uint64(v) => ValueView::Uint64(*v),
            Value::Sint32(v) => ValueView::Sint32(*v),
            Value::Sint64(v) => ValueView::Sint64(*v),
            Value::Fixed32(v) => ValueView::Fixed32(*v),
            Value::Fixed64(v) => ValueView::Fixed64(*v),
            Value::Sfixed32(v) => ValueView::Sfixed32(*v),
            Value::Sfixed64(v) => ValueView::Sfixed64(*v),
            Value::Double(v) => ValueView::Double(*v),
            Value::Float(v) => ValueView::Float(*v),
            Value::Bool(v) => ValueView::Bool(*v),
            Value::String(v) => ValueView::String(v@),
            Value::Bytes(v) => ValueView::Bytes(v@),
        }
    }
}

/// The views of a list of values.
pub open spec fn values_view(items: Seq<Value>) -> Seq<ValueView> {
    Seq::new(items.len(), |i: int| items[i]@)
}

/// The view of what a variant carries.
pub open spec fn payload_view(p: Payload) -> PayloadView
    decreases p,
{
    match p {
        Payload::Scalar(v) => PayloadView::Scalar(v@),
        Payload::Message(m) => PayloadView::Message(message_view(m)),
    }
}

/// The view of what a field holds.
pub open spec fn field_view(f: FieldValue) -> FieldView
    decreases f,
{
    match f {
        FieldValue::Scalar(v) => FieldView::Scalar(v@),
        FieldValue::Repeated(items) => FieldView::Repeated(values_view(items@)),
        FieldValue::Oneof(None) => FieldView::Oneof(None),
        FieldValue::Oneof(Some(c)) => FieldView::Oneof(
            Some(ChosenView { variant: c.variant as nat, payload: payload_view(c.payload) }),
        ),
        FieldValue::Message(m) => FieldView::Message(message_view(m)),
    }
}

/// The view of a message: the views of its fields.
pub open spec fn message_view(m: Message) -> MessageView
    decreases m,
{
    MessageView {
        fields: Seq::new(
            m.fields@.len(),
            |i: int|
                if 0 <= i < m.fields@.len() {
                    field_view(m.fields@[i])
                } else {
                    FieldView::Oneof(None)
                },
        ),
    }
}

impl View for Payload {
    type V = PayloadView;

    open spec fn view(&self) -> PayloadView {
        payload_view(*self)
    }
}

impl View for Chosen {
    type V = ChosenView;

    open spec fn view(&self) -> ChosenView {
        ChosenView { variant: self.variant as nat, payload: payload_view(self.payload) }
    }
}

impl View for FieldValue {
    type V = FieldView;

    open spec fn view(&self) -> FieldView {
        field_view(*self)
    }
}

impl View for Message {
    type V = MessageView;

    open spec fn view(&self) -> MessageView {
        message_view(*self)
    }
}

impl ValueView {
    /// The scalar type of the value.
    pub open spec fn scalar_type(self) -> ScalarType {
        match self {
            ValueView::Int32(_) => ScalarType::Int32,
            ValueView::Int64(_) => ScalarType::Int64,
            ValueView::Uint32(_) => ScalarType::Uint32,
            ValueView::Uint64(_) => ScalarType::Uint64,
            ValueView::Sint32(_) => ScalarType::Sint32,
            ValueView::Sint64(_) => ScalarType::Sint64,
            ValueView::Fixed32(_) => ScalarType::Fixed32,
            ValueView::Fixed64(_) => ScalarType::Fixed64,
            ValueView::Sfixed32(_) => ScalarType::Sfixed32,
            ValueView::Sfixed64(_) => ScalarType::Sfixed64,
            ValueView::Double(_) => ScalarType::Double,
            ValueView::Float(_) => ScalarType::Float,
            ValueView::Bool(_) => ScalarType::Bool,
            ValueView::String(_) => ScalarType::String,
            ValueView::Bytes(_) => ScalarType::Bytes,
        }
    }

    /// How many bytes the payload of a text or of a run of bytes has; zero
    /// for every other value.
    pub open spec fn payload_len(self) -> nat {
        match self {
            ValueView::String(text) => vstd::utf8::encode_utf8(text).len(),
            ValueView::Bytes(payload) => payload.len(),
            _ => 0,
        }
    }

    /// The bytes the value is sent as, without its tag.
    pub open spec fn encoding(self) -> Seq<u8> {
        match self {
            ValueView::Int32(v) => varint_encoding(unsigned64(v as int)),
            ValueView::Int64(v) => varint_encoding(unsigned64(v as int)),
            ValueView::Uint32(v) => varint_encoding(v as nat),
            ValueView::Uint64(v) => varint_encoding(v as nat),
            ValueView::Sint32(v) => varint_encoding(zigzag(v as int)),
            ValueView::Sint64(v) => varint_encoding(zigzag(v as int)),
            ValueView::Fixed32(v) => le_bytes(v as nat, 4),
            ValueView::Fixed64(v) => le_bytes(v as nat, 8),
            ValueView::Sfixed32(v) => le_bytes(unsigned32(v as int), 4),
            ValueView::Sfixed64(v) => le_bytes(unsigned64(v as int), 8),
            ValueView::Double(bits) => le_bytes(bits as nat, 8),
            ValueView::Float(bits) => le_bytes(bits as nat, 4),
            ValueView::Bool(v) => bool_encoding(v),
            ValueView::String(text) => delimited_encoding(vstd::utf8::encode_utf8(text)),
            ValueView::Bytes(payload) => delimited_encoding(payload),
        }
    }

    /// The value that a field of the given type holds before anything was
    /// read into it: zero, false, or nothing.
    pub open spec fn initial(ty: ScalarType) -> ValueView {
        match ty {
            ScalarType::Int32 => ValueView::Int32(0),
            ScalarType::Int64 => ValueView::Int64(0),
            ScalarType::Uint32 => ValueView::Uint32(0),
            ScalarType::Uint64 => ValueView::Uint64(0),
            ScalarType::Sint32 => ValueView::Sint32(0),
            ScalarType::Sint64 => ValueView::Sint64(0),
            ScalarType::Fixed32 => ValueView::Fixed32(0),
            ScalarType::Fixed64 => ValueView::Fixed64(0),
            ScalarType::Sfixed32 => ValueView::Sfixed32(0),
            ScalarType::Sfixed64 => ValueView::Sfixed64(0),
            ScalarType::Double => ValueView::Double(0),
            ScalarType::Float => ValueView::Float(0),
            ScalarType::Bool => ValueView::Bool(false),
            ScalarType::String => ValueView::String(Seq::empty()),
            ScalarType::Bytes => ValueView::Bytes(Seq::empty()),
        }
    }
}

/// `p` with its value wrapped by `wrap`.
pub open spec fn wrapped<T>(p: Parsed<T>, wrap: spec_fn(T) -> ValueView) -> Parsed<ValueView> {
    match p.result {
        Ok(v) => Parsed { result: Ok(wrap(v)), consumed: p.consumed },
        Err(e) => failed(p, e),
    }
}

/// What the front of `s` means as a value of the scalar type `ty`, for a
/// destination named `field_name` that holds at most `capacity` bytes of
/// text or of raw bytes.
#[verifier::opaque]
pub open spec fn parse_scalar(ty: ScalarType, capacity: nat, field_name: &'static str, s: Seq<u8>) -> Parsed<
    ValueView,
> {
    match ty {
        ScalarType::Int32 => wrapped(parse_varint_i32(s), |v: i32| ValueView::Int32(v)),
        ScalarType::Int64 => wrapped(parse_varint_i64(s), |v: i64| ValueView::Int64(v)),
        ScalarType::Uint32 => wrapped(parse_varint_u32(s), |v: u32| ValueView::Uint32(v)),
        ScalarType::Uint64 => wrapped(parse_varint(s), |v: u64| ValueView::Uint64(v)),
        ScalarType::Sint32 => wrapped(parse_sint32(s), |v: i32| ValueView::Sint32(v)),
        ScalarType::Sint64 => wrapped(parse_sint64(s), |v: i64| ValueView::Sint64(v)),
        ScalarType::Fixed32 => wrapped(parse_fixed32(s), |v: u32| ValueView::Fixed32(v)),
        ScalarType::Fixed64 => wrapped(parse_fixed64(s), |v: u64| ValueView::Fixed64(v)),
        ScalarType::Sfixed32 => wrapped(parse_sfixed32(s), |v: i32| ValueView::Sfixed32(v)),
        ScalarType::Sfixed64 => wrapped(parse_sfixed64(s), |v: i64| ValueView::Sfixed64(v)),
        ScalarType::Double => wrapped(parse_fixed64(s), |v: u64| ValueView::Double(v)),
        ScalarType::Float => wrapped(parse_fixed32(s), |v: u32| ValueView::Float(v)),
        ScalarType::Bool => wrapped(parse_bool(s), |v: bool| ValueView::Bool(v)),
        ScalarType::String => wrapped(
            parse_string(s, capacity, field_name),
            |v: Seq<char>| ValueView::String(v),
        ),
        ScalarType::Bytes => wrapped(
            parse_bytes(s, capacity, field_name),
            |v: Seq<u8>| ValueView::Bytes(v),
        ),
    }
}

impl Value {
    /// The value that a field of the given type holds before anything was
    /// read into it.
    pub fn initial(ty: ScalarType) -> (v: Value)
        ensures
            v@ == ValueView::initial(ty),
    {
        match ty {
            ScalarType::Int32 => Value::Int32(0),
            ScalarType::Int64 => Value::Int64(0),
            ScalarType::Uint32 => Value::Uint32(0),
            ScalarType::Uint64 => Value::Uint64(0),
            ScalarType::Sint32 => Value::Sint32(0),
            ScalarType::Sint64 => Value::Sint64(0),
            ScalarType::Fixed32 => Value::Fixed32(0),
            ScalarType::Fixed64 => Value::Fixed64(0),
            ScalarType::Sfixed32 => Value::Sfixed32(0),
            ScalarType::Sfixed64 => Value::Sfixed64(0),
            ScalarType::Double => Value::Double(0),
            ScalarType::Float => Value::Float(0),
            ScalarType::Bool => Value::Bool(false),
            ScalarType::String => Value::String(String::new()),
            ScalarType::Bytes => Value::Bytes(Vec::new()),
        }
    }

    /// Writes the value, without a tag, in the form of its type.
    pub fn encode<W: Writer>(&self, sink: &mut W) -> (r: Result<usize, WriterError>)
        ensures
            emits(*old(sink), *final(sink), r, self@.encoding()),
    {
        match self {
            Value::Int32(v) => encoder::int32(sink, v),
            Value::Int64(v) => encoder::int64(sink, v),
            Value::Uint32(v) => encoder::uint32(sink, v),
            Value::Uint64(v) => encoder::uint64(sink, v),
            Value::Sint32(v) => encoder::sint32(sink, v),
            Value::Sint64(v) => encoder::sint64(sink, v),
            Value::Fixed32(v) => encoder::fixed32(sink, v),
            Value::Fixed64(v) => encoder::fixed64(sink, v),
            Value::Sfixed32(v) => encoder::sfixed32(sink, v),
            Value::Sfixed64(v) => encoder::sfixed64(sink, v),
            Value::Double(bits) => encoder::fixed64(sink, bits),
            Value::Float(bits) => encoder::fixed32(sink, bits),
            Value::Bool(v) => encoder::bool(sink, v),
            Value::String(text) => encoder::string(sink, text.as_str()),
            Value::Bytes(payload) => encoder::bytes(sink, payload.as_slice()),
        }
    }

    /// Reads a value of the scalar type `ty` for a destination named
    /// `field_name` that holds at most `capacity` bytes of text or of raw
    /// bytes.
    pub fn decode<R: Reader>(ty: ScalarType, capacity: usize, field_name: &'static str, source: &mut R) -> (r:
        Result<Value, DecodeError>)
        ensures
            match parse_scalar(ty, capacity as nat, field_name, old(source).remaining()).result {
                Ok(value) => r matches Ok(v) && v@ == value,
                Err(e) => r matches Err(f) && f == e,
            },
            parse_scalar(ty, capacity as nat, field_name, old(source).remaining()).consumed <= old(
                source,
            ).remaining().len(),
            *final(source) == advanced(
                *old(source),
                parse_scalar(ty, capacity as nat, field_name, old(source).remaining()).consumed,
            ),
            final(source).remaining() == old(source).remaining().skip(
                parse_scalar(ty, capacity as nat, field_name, old(source).remaining()).consumed as int,
            ),
    {
        reveal(parse_scalar);
        match ty {
            ScalarType::Int32 => match decoder::int32(source, field_name) {
                Ok(v) => Ok(Value::Int32(v)),
                Err(e) => Err(e),
            },
            ScalarType::Int64 => match decoder::int64(source, field_name) {
                Ok(v) => Ok(Value::Int64(v)),
                Err(e) => Err(e),
            },
            ScalarType::Uint32 => match decoder::uint32(source, field_name) {
                Ok(v) => Ok(Value::Uint32(v)),
                Err(e) => Err(e),
            },
            ScalarType::Uint64 => match decoder::uint64(source, field_name) {
                Ok(v) => Ok(Value::Uint64(v)),
                Err(e) => Err(e),
            },
            ScalarType::Sint32 => match decoder::sint32(source, field_name) {
                Ok(v) => Ok(Value::Sint32(v)),
                Err(e) => Err(e),
            },
            ScalarType::Sint64 => match decoder::sint64(source, field_name) {
                Ok(v) => Ok(Value::Sint64(v)),
                Err(e) => Err(e),
            },
            ScalarType::Fixed32 => match decoder::fixed32(source, field_name) {
                Ok(v) => Ok(Value::Fixed32(v)),
                Err(e) => Err(e),
            },
            ScalarType::Fixed64 => match decoder::fixed64(source, field_name) {
                Ok(v) => Ok(Value::Fixed64(v)),
                Err(e) => Err(e),
            },
            ScalarType::Sfixed32 => match decoder::sfixed32(source, field_name) {
                Ok(v) => Ok(Value::Sfixed32(v)),
                Err(e) => Err(e),
            },
            ScalarType::Sfixed64 => match decoder::sfixed64(source, field_name) {
                Ok(v) => Ok(Value::Sfixed64(v)),
                Err(e) => Err(e),
            },
            ScalarType::Double => match decoder::fixed64(source, field_name) {
                Ok(v) => Ok(Value::Double(v)),
                Err(e) => Err(e),
            },
            ScalarType::Float => match decoder::fixed32(source, field_name) {
                Ok(v) => Ok(Value::Float(v)),
                Err(e) => Err(e),
            },
            ScalarType::Bool => match decoder::bool(source, field_name) {
                Ok(v) => Ok(Value::Bool(v)),
                Err(e) => Err(e),
            },
            ScalarType::String => match decoder::string_within(source, capacity, field_name) {
                Ok(v) => Ok(Value::String(v)),
                Err(e) => Err(e),
            },
            ScalarType::Bytes => match decoder::bytes_within(source, capacity, field_name) {
                Ok(v) => Ok(Value::Bytes(v)),
                Err(e) => Err(e),
            },
        }
    }
}

} // verus!
