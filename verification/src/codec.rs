//! The wire form of whole messages, as mathematics: what a message looks
//! like as bytes under a schema, and what a run of bytes means as a message
//! of a schema.
//!
//! Reading a message goes tag by tag until nothing is left. Each tag picks
//! the first field of the schema, in declaration order, that answers to its
//! number, and the field says how the value that follows is read. A field
//! that fails makes the whole message fail, and nothing is said of how far
//! a failed read went.

use vstd::prelude::*;
use crate::decoder::DecodeError;
use crate::iterators::window;
use crate::message::{ChosenView, FieldView, MessageView, PayloadView, ValueView, parse_scalar};
use crate::schema::{
    find_field_from, find_variant_from, FieldDescriptor, FieldKind, MessageSchema, ScalarType,
    Variant, VariantKind,
};
use crate::wire::{delimited_encoding, parse_tag, parse_unknown, parse_varint_u32, tag_encoding};

verus! {

// ---------------------------------------------------------------------------
// The message that nothing was read into
// ---------------------------------------------------------------------------

/// What a field holds before anything was read into it.
pub open spec fn initial_field(d: FieldDescriptor) -> FieldView
    decreases d,
{
    match d.kind {
        FieldKind::Scalar(ty) => if d.repeated {
            FieldView::Repeated(Seq::empty())
        } else {
            FieldView::Scalar(ValueView::initial(ty))
        },
        FieldKind::Oneof(_) => FieldView::Oneof(None),
        FieldKind::Message(sub) => FieldView::Message(initial_message(sub)),
    }
}

/// The message of a schema that nothing was read into: every scalar zero,
/// false or empty, every list empty, every oneof unset.
pub open spec fn initial_message(schema: MessageSchema) -> MessageView
    decreases schema,
{
    MessageView {
        fields: Seq::new(
            schema.fields@.len(),
            |i: int|
                if 0 <= i < schema.fields@.len() {
                    initial_field(schema.fields@[i])
                } else {
                    FieldView::Oneof(None)
                },
        ),
    }
}

// ---------------------------------------------------------------------------
// Reading
// ---------------------------------------------------------------------------

/// What a run of bytes means as values of one scalar type sent back to
/// back, added to the `items` that a list of at most `max_count` already
/// holds. The run is read until nothing of it is left. A value that was
/// read took at least one byte and no more than there were; the definition
/// says what comes of it otherwise only to be a definition.
pub open spec fn parse_run(
    ty: ScalarType,
    capacity: nat,
    field_name: &'static str,
    max_count: nat,
    items: Seq<ValueView>,
    s: Seq<u8>,
) -> Result<Seq<ValueView>, DecodeError>
    decreases s.len(),
{
    let v = parse_scalar(ty, capacity, field_name, s);
    match v.result {
        Err(DecodeError::EmptyBuffer) => Ok(items),
        Err(e) => Err(e),
        Ok(value) => if items.len() >= max_count {
            Err(DecodeError::UnexpectedEndOfBuffer)
        } else if 0 < v.consumed <= s.len() {
            parse_run(ty, capacity, field_name, max_count, items.push(value), s.skip(v.consumed as int))
        } else {
            Err(DecodeError::UnexpectedEndOfBuffer)
        },
    }
}

/// What the front of `s` means as one occurrence of a repeated field: the
/// items of the field afterwards, and how many bytes the occurrence took.
///
/// An occurrence with the length-delimited wire type, of a type that can be
/// packed, is a length and a run of that many bytes. Any other occurrence
/// is a single value.
pub open spec fn parse_repeated(
    ty: ScalarType,
    capacity: nat,
    field_name: &'static str,
    max_count: nat,
    items: Seq<ValueView>,
    wire_type: u8,
    s: Seq<u8>,
) -> Result<(Seq<ValueView>, nat), DecodeError> {
    if wire_type == 2 && ty.packable() {
        let l = parse_varint_u32(s);
        match l.result {
            Err(e) => Err(e),
            Ok(len) => {
                let run = window(s.skip(l.consumed as int), len as nat);
                match parse_run(ty, capacity, field_name, max_count, items, run) {
                    Ok(all) => Ok((all, l.consumed + run.len())),
                    Err(e) => Err(e),
                }
            },
        }
    } else {
        let v = parse_scalar(ty, capacity, field_name, s);
        match v.result {
            Err(e) => Err(e),
            Ok(value) => if items.len() >= max_count {
                Err(DecodeError::UnexpectedEndOfBuffer)
            } else {
                Ok((items.push(value), v.consumed))
            },
        }
    }
}

/// The items a field holds, when it holds a list.
pub open spec fn items_of(acc: MessageView, i: int) -> Seq<ValueView> {
    if 0 <= i < acc.fields.len() {
        match acc.fields[i] {
            FieldView::Repeated(items) => items,
            _ => Seq::empty(),
        }
    } else {
        Seq::empty()
    }
}

/// What the front of `s` means as an embedded message of the schema `sub`:
/// a length, and the message that the next bytes, as many as the length
/// says, are read as.
pub open spec fn parse_nested(sub: MessageSchema, s: Seq<u8>) -> Result<(MessageView, nat), DecodeError>
    decreases sub, 2nat, 0nat,
{
    let l = parse_varint_u32(s);
    match l.result {
        Err(e) => Err(e),
        Ok(len) => {
            let payload = window(s.skip(l.consumed as int), len as nat);
            match parse_fields(sub, initial_message(sub), payload) {
                Ok(m) => Ok((m, l.consumed + payload.len())),
                Err(e) => Err(e),
            }
        },
    }
}

/// What the front of `s` means as the value of the first variant, from
/// index `j` on, that `number` selects. A number that selects no variant
/// is an error.
pub open spec fn parse_variant_at(variants: Vec<Variant>, j: nat, number: u32, s: Seq<u8>) -> Result<
    (ChosenView, nat),
    DecodeError,
>
    decreases variants, 0nat, variants@.len() - j,
{
    if j >= variants@.len() {
        Err(DecodeError::UnexpectedEndOfBuffer)
    } else if variants@[j as int].numbers@.contains(number) {
        let v = variants@[j as int];
        match v.kind {
            VariantKind::Scalar(ty) => {
                let p = parse_scalar(ty, v.capacity as nat, v.name, s);
                match p.result {
                    Ok(value) => Ok(
                        (ChosenView { variant: j, payload: PayloadView::Scalar(value) }, p.consumed),
                    ),
                    Err(e) => Err(e),
                }
            },
            VariantKind::Message(sub) => match parse_nested(sub, s) {
                Ok((m, taken)) => Ok((ChosenView { variant: j, payload: PayloadView::Message(m) }, taken)),
                Err(e) => Err(e),
            },
        }
    } else {
        parse_variant_at(variants, j + 1, number, s)
    }
}

/// What the front of `s` means as the value of the field `d`, which is
/// the field at index `i` of the message `acc`, when it arrives under the
/// given number and wire type: what the field holds afterwards, and how
/// many bytes the value took.
pub open spec fn parse_value_of(d: FieldDescriptor, acc: MessageView, i: int, number: u32, wire_type: u8, s: Seq<
    u8,
>) -> Result<(FieldView, nat), DecodeError>
    decreases d, 0nat, 0nat,
{
    match d.kind {
        FieldKind::Scalar(ty) => if d.repeated {
            match parse_repeated(
                ty,
                d.capacity as nat,
                d.name,
                d.max_count as nat,
                items_of(acc, i),
                wire_type,
                s,
            ) {
                Ok((items, taken)) => Ok((FieldView::Repeated(items), taken)),
                Err(e) => Err(e),
            }
        } else {
            let p = parse_scalar(ty, d.capacity as nat, d.name, s);
            match p.result {
                Ok(value) => Ok((FieldView::Scalar(value), p.consumed)),
                Err(e) => Err(e),
            }
        },
        FieldKind::Oneof(variants) => match parse_variant_at(variants, 0, number, s) {
            Ok((chosen, taken)) => Ok((FieldView::Oneof(Some(chosen)), taken)),
            Err(e) => Err(e),
        },
        FieldKind::Message(sub) => match parse_nested(sub, s) {
            Ok((m, taken)) => Ok((FieldView::Message(m), taken)),
            Err(e) => Err(e),
        },
    }
}

/// What the front of `s` means as the value that follows a tag with the
/// given number and wire type, for the first field of the schema from index
/// `i` on that answers to the number: the message afterwards, and how many
/// bytes the value took. When no field answers, the value is passed over
/// and the message stays as it is.
pub open spec fn parse_field_at(
    schema: MessageSchema,
    i: nat,
    acc: MessageView,
    number: u32,
    wire_type: u8,
    s: Seq<u8>,
) -> Result<(MessageView, nat), DecodeError>
    decreases schema, 0nat, schema.fields@.len() - i,
{
    if i >= schema.fields@.len() {
        let u = parse_unknown(s, wire_type);
        match u.result {
            Ok(_) => Ok((acc, u.consumed)),
            Err(e) => Err(e),
        }
    } else if schema.fields@[i as int].numbers@.contains(number) {
        match parse_value_of(schema.fields@[i as int], acc, i as int, number, wire_type, s) {
            Ok((slot, taken)) => Ok((MessageView { fields: acc.fields.update(i as int, slot) }, taken)),
            Err(e) => Err(e),
        }
    } else {
        parse_field_at(schema, i + 1, acc, number, wire_type, s)
    }
}

/// What `s` means as the rest of a message of `schema` of which `acc` has
/// been read so far.
///
/// The only way to succeed is to find nothing left where the next tag
/// would start. A tag that was read took at least one byte, and neither a
/// tag nor a value takes more bytes than there are
/// ([`lemma_parse_field_within`]); the definition says what comes of it
/// otherwise only to be a definition.
pub open spec fn parse_fields(schema: MessageSchema, acc: MessageView, s: Seq<u8>) -> Result<
    MessageView,
    DecodeError,
>
    decreases schema, 1nat, s.len(),
{
    let t = parse_tag(s);
    match t.result {
        Err(DecodeError::EmptyBuffer) => Ok(acc),
        Err(e) => Err(e),
        Ok((number, wire_type)) => if 0 < t.consumed <= s.len() {
            let rest = s.skip(t.consumed as int);
            match parse_field_at(schema, 0, acc, number, wire_type, rest) {
                Err(e) => Err(e),
                Ok((next, taken)) => if taken <= rest.len() {
                    parse_fields(schema, next, rest.skip(taken as int))
                } else {
                    Err(DecodeError::UnexpectedEndOfBuffer)
                },
            }
        } else {
            Err(DecodeError::UnexpectedEndOfBuffer)
        },
    }
}

/// What `s` means as a message of `schema`.
pub open spec fn parse_message(schema: MessageSchema, s: Seq<u8>) -> Result<MessageView, DecodeError> {
    parse_fields(schema, initial_message(schema), s)
}

/// The first variant from `j` on that a number selects is the first of
/// all, when none before `j` is selected.
pub proof fn lemma_parse_variant_found(variants: Vec<Variant>, j: nat, number: u32, s: Seq<u8>)
    ensures
        parse_variant_at(variants, j, number, s) == match find_variant_from(variants@, number, j) {
            Some(k) => parse_variant_at(variants, k, number, s),
            None => Err(DecodeError::UnexpectedEndOfBuffer),
        },
    decreases variants@.len() - j,
{
    if j < variants@.len() && !variants@[j as int].numbers@.contains(number) {
        lemma_parse_variant_found(variants, j + 1, number, s);
    }
}

/// The first field from `i` on that answers to a number is the first of
/// all, when none before `i` answers.
pub proof fn lemma_parse_field_found(
    schema: MessageSchema,
    i: nat,
    acc: MessageView,
    number: u32,
    wire_type: u8,
    s: Seq<u8>,
)
    ensures
        parse_field_at(schema, i, acc, number, wire_type, s) == match find_field_from(
            schema.fields@,
            number,
            i,
        ) {
            Some(k) => parse_field_at(schema, k, acc, number, wire_type, s),
            None => parse_field_at(schema, schema.fields@.len(), acc, number, wire_type, s),
        },
    decreases schema.fields@.len() - i,
{
    if i < schema.fields@.len() && !schema.fields@[i as int].numbers@.contains(number) {
        lemma_parse_field_found(schema, i + 1, acc, number, wire_type, s);
    }
}

/// An embedded message never takes more bytes than there are.
pub proof fn lemma_parse_nested_within(sub: MessageSchema, s: Seq<u8>)
    ensures
        parse_nested(sub, s) matches Ok((_, taken)) ==> taken <= s.len(),
{
    crate::wire::lemma_parse_varint_within(s);
}

/// One occurrence of a repeated field never takes more bytes than there
/// are.
pub proof fn lemma_parse_repeated_within(
    ty: ScalarType,
    capacity: nat,
    field_name: &'static str,
    max_count: nat,
    items: Seq<ValueView>,
    wire_type: u8,
    s: Seq<u8>,
)
    ensures
        parse_repeated(ty, capacity, field_name, max_count, items, wire_type, s) matches Ok((_, taken))
            ==> taken <= s.len(),
{
    crate::wire::lemma_parse_varint_within(s);
    crate::laws::lemma_parse_scalar_within(ty, capacity, field_name, s);
}

/// The value of a variant never takes more bytes than there are.
pub proof fn lemma_parse_variant_within(variants: Vec<Variant>, j: nat, number: u32, s: Seq<u8>)
    ensures
        parse_variant_at(variants, j, number, s) matches Ok((_, taken)) ==> taken <= s.len(),
    decreases variants@.len() - j,
{
    if j < variants@.len() {
        if variants@[j as int].numbers@.contains(number) {
            let v = variants@[j as int];
            match v.kind {
                VariantKind::Scalar(ty) => {
                    crate::laws::lemma_parse_scalar_within(ty, v.capacity as nat, v.name, s);
                },
                VariantKind::Message(sub) => {
                    lemma_parse_nested_within(sub, s);
                },
            }
        } else {
            lemma_parse_variant_within(variants, j + 1, number, s);
        }
    }
}

/// The value of a field never takes more bytes than there are.
pub proof fn lemma_parse_value_within(
    d: FieldDescriptor,
    acc: MessageView,
    i: int,
    number: u32,
    wire_type: u8,
    s: Seq<u8>,
)
    ensures
        parse_value_of(d, acc, i, number, wire_type, s) matches Ok((_, taken)) ==> taken <= s.len(),
{
    match d.kind {
        FieldKind::Scalar(ty) => {
            crate::laws::lemma_parse_scalar_within(ty, d.capacity as nat, d.name, s);
            lemma_parse_repeated_within(
                ty,
                d.capacity as nat,
                d.name,
                d.max_count as nat,
                items_of(acc, i),
                wire_type,
                s,
            );
        },
        FieldKind::Oneof(variants) => {
            lemma_parse_variant_within(variants, 0, number, s);
        },
        FieldKind::Message(sub) => {
            lemma_parse_nested_within(sub, s);
        },
    }
}

/// The value that follows a tag never takes more bytes than there are, so
/// reading a message never stops for that.
pub proof fn lemma_parse_field_within(
    schema: MessageSchema,
    i: nat,
    acc: MessageView,
    number: u32,
    wire_type: u8,
    s: Seq<u8>,
)
    ensures
        parse_field_at(schema, i, acc, number, wire_type, s) matches Ok((_, taken)) ==> taken <= s.len(),
    decreases schema.fields@.len() - i,
{
    if i >= schema.fields@.len() {
        crate::wire::lemma_parse_unknown_within(s, wire_type);
    } else if schema.fields@[i as int].numbers@.contains(number) {
        lemma_parse_value_within(schema.fields@[i as int], acc, i as int, number, wire_type, s);
    } else {
        lemma_parse_field_within(schema, i + 1, acc, number, wire_type, s);
    }
}

// ---------------------------------------------------------------------------
// Writing
// ---------------------------------------------------------------------------

/// The bytes of the items of a repeated field from index `j` on: each item
/// under a tag of its own.
pub open spec fn items_encoding(number: u32, ty: ScalarType, items: Seq<ValueView>, j: nat) -> Seq<u8>
    decreases items.len() - j,
{
    if j >= items.len() {
        Seq::empty()
    } else {
        tag_encoding(number, ty.wire_type()) + items[j as int].encoding() + items_encoding(
            number,
            ty,
            items,
            j + 1,
        )
    }
}

/// The bytes of an embedded message: the tag of its field, the length of
/// its own bytes, and those bytes.
pub open spec fn nested_encoding(number: u32, sub: MessageSchema, m: MessageView) -> Seq<u8>
    decreases sub, 2nat, 0nat,
{
    tag_encoding(number, 2) + delimited_encoding(message_encoding(sub, m))
}

/// The bytes of the variant that a oneof holds, under the first field
/// number of the variant.
pub open spec fn chosen_encoding(variants: Vec<Variant>, c: ChosenView) -> Seq<u8>
    decreases variants, 0nat, 0nat,
{
    if c.variant < variants@.len() && variants@[c.variant as int].numbers@.len() > 0 {
        let v = variants@[c.variant as int];
        match (v.kind, c.payload) {
            (VariantKind::Scalar(ty), PayloadView::Scalar(value)) => tag_encoding(
                v.numbers@[0],
                ty.wire_type(),
            ) + value.encoding(),
            (VariantKind::Message(sub), PayloadView::Message(m)) => nested_encoding(v.numbers@[0], sub, m),
            _ => Seq::empty(),
        }
    } else {
        Seq::empty()
    }
}

/// The bytes of one field, under its first field number. A scalar is sent
/// whatever its value; a list is sent item by item, so an empty list
/// takes no bytes at all; a oneof is sent as the variant it holds, if any.
pub open spec fn field_encoding(d: FieldDescriptor, f: FieldView) -> Seq<u8>
    decreases d, 0nat, 0nat,
{
    if d.numbers@.len() > 0 {
        match (d.kind, f) {
            (FieldKind::Scalar(ty), FieldView::Scalar(value)) => tag_encoding(
                d.numbers@[0],
                ty.wire_type(),
            ) + value.encoding(),
            (FieldKind::Scalar(ty), FieldView::Repeated(items)) => items_encoding(
                d.numbers@[0],
                ty,
                items,
                0,
            ),
            (FieldKind::Oneof(variants), FieldView::Oneof(Some(c))) => chosen_encoding(variants, c),
            (FieldKind::Message(sub), FieldView::Message(m)) => nested_encoding(d.numbers@[0], sub, m),
            _ => Seq::empty(),
        }
    } else {
        Seq::empty()
    }
}

/// The bytes of the fields of a message from index `i` on, in the order of
/// the schema.
pub open spec fn fields_encoding(schema: MessageSchema, m: MessageView, i: nat) -> Seq<u8>
    decreases schema, 1nat, schema.fields@.len() - i,
{
    if i >= schema.fields@.len() || i >= m.fields.len() {
        Seq::empty()
    } else {
        field_encoding(schema.fields@[i as int], m.fields[i as int]) + fields_encoding(schema, m, i + 1)
    }
}

/// The bytes of a message: its fields, in the order of the schema.
pub open spec fn message_encoding(schema: MessageSchema, m: MessageView) -> Seq<u8>
    decreases schema, 1nat, schema.fields@.len() + 1,
{
    fields_encoding(schema, m, 0)
}

// ---------------------------------------------------------------------------
// Messages that a schema can hold
// ---------------------------------------------------------------------------

/// Whether a value is of the type `ty` and, if it is text or a run of
/// bytes, no longer than `capacity` and than a length can say.
pub open spec fn value_fits(value: ValueView, ty: ScalarType, capacity: nat) -> bool {
    &&& value.scalar_type() == ty
    &&& value.payload_len() <= capacity
    &&& value.payload_len() <= u32::MAX
}

/// Whether a variant can carry a payload.
pub open spec fn payload_fits(v: Variant, p: PayloadView) -> bool
    decreases v, 0nat,
{
    match (v.kind, p) {
        (VariantKind::Scalar(ty), PayloadView::Scalar(value)) => value_fits(value, ty, v.capacity as nat),
        (VariantKind::Message(sub), PayloadView::Message(m)) => fits(sub, m) && message_encoding(sub, m).len()
            <= u32::MAX,
        _ => false,
    }
}

/// Whether a field can hold a value: the value is of the kind of the
/// field, no text and no list in it is longer than the field allows, and no
/// embedded message is longer than a length can say.
pub open spec fn field_fits(d: FieldDescriptor, f: FieldView) -> bool
    decreases d, 0nat,
{
    match (d.kind, f) {
        (FieldKind::Scalar(ty), FieldView::Scalar(value)) => !d.repeated && value_fits(
            value,
            ty,
            d.capacity as nat,
        ),
        (FieldKind::Scalar(ty), FieldView::Repeated(items)) => d.repeated && items.len() <= d.max_count
            && forall|j: int| 0 <= j < items.len() ==> value_fits(#[trigger] items[j], ty, d.capacity as nat),
        (FieldKind::Oneof(_), FieldView::Oneof(None)) => true,
        (FieldKind::Oneof(variants), FieldView::Oneof(Some(c))) => c.variant < variants@.len()
            && payload_fits(variants@[c.variant as int], c.payload),
        (FieldKind::Message(sub), FieldView::Message(m)) => fits(sub, m) && message_encoding(sub, m).len()
            <= u32::MAX,
        _ => false,
    }
}

/// Whether `m` is a message that the schema can hold: it has one entry
/// for each field, and each field can hold its entry.
pub open spec fn fits(schema: MessageSchema, m: MessageView) -> bool
    decreases schema, 3nat,
{
    &&& m.fields.len() == schema.fields@.len()
    &&& forall|i: int|
        0 <= i < schema.fields@.len() ==> field_fits(#[trigger] schema.fields@[i], m.fields[i])
}

// ---------------------------------------------------------------------------
// Messages of the kind of a schema
// ---------------------------------------------------------------------------

/// Whether a value is of the type `ty` and, if it is text or a run of
/// bytes, no longer than `capacity`.
pub open spec fn value_typed(value: ValueView, ty: ScalarType, capacity: nat) -> bool {
    value.scalar_type() == ty && value.payload_len() <= capacity
}

/// Whether a payload is of the kind of a variant.
pub open spec fn payload_typed(v: Variant, p: PayloadView) -> bool
    decreases v, 0nat,
{
    match (v.kind, p) {
        (VariantKind::Scalar(ty), PayloadView::Scalar(value)) => value_typed(value, ty, v.capacity as nat),
        (VariantKind::Message(sub), PayloadView::Message(m)) => typed(sub, m),
        _ => false,
    }
}

/// Whether what a field holds is of the kind of the field, and no text
/// and no list in it is longer than the field allows.
pub open spec fn field_typed(d: FieldDescriptor, f: FieldView) -> bool
    decreases d, 0nat,
{
    match (d.kind, f) {
        (FieldKind::Scalar(ty), FieldView::Scalar(value)) => !d.repeated && value_typed(
            value,
            ty,
            d.capacity as nat,
        ),
        (FieldKind::Scalar(ty), FieldView::Repeated(items)) => d.repeated && items.len() <= d.max_count
            && forall|j: int| 0 <= j < items.len() ==> value_typed(#[trigger] items[j], ty, d.capacity as nat),
        (FieldKind::Oneof(_), FieldView::Oneof(None)) => true,
        (FieldKind::Oneof(variants), FieldView::Oneof(Some(c))) => c.variant < variants@.len()
            && payload_typed(variants@[c.variant as int], c.payload),
        (FieldKind::Message(sub), FieldView::Message(m)) => typed(sub, m),
        _ => false,
    }
}

/// Whether `m` is a message of the kind of the schema: it has one entry
/// for each field, each of the kind of its field and within its bounds.
pub open spec fn typed(schema: MessageSchema, m: MessageView) -> bool
    decreases schema, 3nat,
{
    &&& m.fields.len() == schema.fields@.len()
    &&& forall|i: int|
        0 <= i < schema.fields@.len() ==> field_typed(#[trigger] schema.fields@[i], m.fields[i])
}

} // verus!
