//! Laws of whole messages: what is written of a message is read back as the
//! message, and what is written of a field that the reader does not know is
//! passed over.

use vstd::prelude::*;
use crate::codec::{
    chosen_encoding, field_encoding, field_fits, fields_encoding, fits, initial_field,
    initial_message, items_encoding, items_of, lemma_parse_field_found, lemma_parse_variant_found,
    message_encoding, parse_field_at, parse_fields, parse_message, parse_nested, parse_repeated,
    parse_value_of, parse_variant_at, value_fits,
};
use crate::decoder::DecodeError;
use crate::iterators::window;
use crate::laws::{
    law_bool_round_trip, law_bytes_round_trip, law_fixed32_round_trip, law_fixed64_round_trip,
    law_int32_round_trip, law_int64_round_trip, law_sfixed32_round_trip, law_sfixed64_round_trip,
    law_sint32_round_trip, law_sint64_round_trip, law_string_round_trip, law_tag_round_trip,
    law_uint32_round_trip, law_varint_round_trip,
};
use crate::message::{parse_scalar, ChosenView, FieldView, MessageView, PayloadView, ValueView};
use crate::schema::{
    disjoint, find_field, find_variant_from, leads, lemma_find_field_from, lemma_find_field_is,
    lemma_find_field_none, lemma_find_variant_is, numbered, variants_well_formed, well_formed,
    FieldDescriptor, FieldKind, MessageSchema, ScalarType, Variant, VariantKind,
};
use crate::wire::{
    delimited_encoding, parse_unknown, parse_varint_u32, tag_encoding, tag_fits, unsigned64,
    varint_encoding, zigzag, Parsed,
};

verus! {

/// A scalar value that its destination can hold reads back as itself,
/// whatever follows it.
pub proof fn law_value_round_trip(value: ValueView, capacity: nat, field_name: &'static str, rest: Seq<u8>)
    requires
        value_fits(value, value.scalar_type(), capacity),
    ensures
        parse_scalar(value.scalar_type(), capacity, field_name, value.encoding() + rest) == (Parsed {
            result: Ok::<ValueView, DecodeError>(value),
            consumed: value.encoding().len(),
        }),
        value.encoding().len() >= 1,
{
    reveal(parse_scalar);
    match value {
        ValueView::Int32(v) => law_int32_round_trip(v, rest),
        ValueView::Int64(v) => law_int64_round_trip(v, rest),
        ValueView::Uint32(v) => law_uint32_round_trip(v, rest),
        ValueView::Uint64(v) => law_varint_round_trip(v, rest),
        ValueView::Sint32(v) => law_sint32_round_trip(v, rest),
        ValueView::Sint64(v) => law_sint64_round_trip(v, rest),
        ValueView::Fixed32(v) => law_fixed32_round_trip(v, rest),
        ValueView::Fixed64(v) => law_fixed64_round_trip(v, rest),
        ValueView::Sfixed32(v) => law_sfixed32_round_trip(v, rest),
        ValueView::Sfixed64(v) => law_sfixed64_round_trip(v, rest),
        ValueView::Double(v) => law_fixed64_round_trip(v, rest),
        ValueView::Float(v) => law_fixed32_round_trip(v, rest),
        ValueView::Bool(v) => law_bool_round_trip(v, rest),
        ValueView::String(v) => {
            law_string_round_trip(v, capacity, field_name, rest);
            law_varint_round_trip(vstd::utf8::encode_utf8(v).len() as u64, rest);
        },
        ValueView::Bytes(v) => {
            law_bytes_round_trip(v, capacity, field_name, rest);
            law_varint_round_trip(v.len() as u64, rest);
        },
    }
}

/// A run of bytes with its length in front is passed over as a whole when
/// it is taken for a length-delimited value.
pub proof fn law_delimited_passed_over(payload: Seq<u8>, rest: Seq<u8>)
    requires
        payload.len() <= u32::MAX,
    ensures
        parse_unknown(delimited_encoding(payload) + rest, 2) == (Parsed {
            result: Ok::<(), DecodeError>(()),
            consumed: delimited_encoding(payload).len(),
        }),
{
    let head = varint_encoding(payload.len());
    let s = delimited_encoding(payload) + rest;
    assert(s == head + (payload + rest));
    law_uint32_round_trip(payload.len() as u32, payload + rest);
    assert(s.skip(head.len() as int) == payload + rest);
}

/// A scalar value is passed over as a whole when nothing is known of it
/// but the wire type of its type.
pub proof fn law_value_passed_over(value: ValueView, rest: Seq<u8>)
    requires
        value.payload_len() <= u32::MAX,
    ensures
        parse_unknown(value.encoding() + rest, value.scalar_type().wire_type()) == (Parsed {
            result: Ok::<(), DecodeError>(()),
            consumed: value.encoding().len(),
        }),
{
    match value {
        ValueView::Int32(v) => law_varint_round_trip(unsigned64(v as int) as u64, rest),
        ValueView::Int64(v) => law_varint_round_trip(unsigned64(v as int) as u64, rest),
        ValueView::Uint32(v) => law_varint_round_trip(v as u64, rest),
        ValueView::Uint64(v) => law_varint_round_trip(v, rest),
        ValueView::Sint32(v) => law_varint_round_trip(zigzag(v as int) as u64, rest),
        ValueView::Sint64(v) => law_varint_round_trip(zigzag(v as int) as u64, rest),
        ValueView::Fixed32(v) => law_fixed32_round_trip(v, rest),
        ValueView::Fixed64(v) => law_fixed64_round_trip(v, rest),
        ValueView::Sfixed32(v) => law_sfixed32_round_trip(v, rest),
        ValueView::Sfixed64(v) => law_sfixed64_round_trip(v, rest),
        ValueView::Double(v) => law_fixed64_round_trip(v, rest),
        ValueView::Float(v) => law_fixed32_round_trip(v, rest),
        ValueView::Bool(v) => law_varint_round_trip(if v { 1u64 } else { 0u64 }, rest),
        ValueView::String(v) => law_delimited_passed_over(vstd::utf8::encode_utf8(v), rest),
        ValueView::Bytes(v) => law_delimited_passed_over(v, rest),
    }
}

/// Reading a message whose next bytes are a tag goes on with the value of
/// the field that the tag names, and then with what follows the value.
pub proof fn lemma_parse_fields_tagged(
    schema: MessageSchema,
    acc: MessageView,
    number: u32,
    wire_type: u8,
    tail: Seq<u8>,
)
    requires
        tag_fits(number, wire_type),
    ensures
        parse_fields(schema, acc, tag_encoding(number, wire_type) + tail) == match parse_field_at(
            schema,
            0,
            acc,
            number,
            wire_type,
            tail,
        ) {
            Err(e) => Err(e),
            Ok((next, taken)) => if taken <= tail.len() {
                parse_fields(schema, next, tail.skip(taken as int))
            } else {
                Err(DecodeError::UnexpectedEndOfBuffer)
            },
        },
{
    let s = tag_encoding(number, wire_type) + tail;
    law_tag_round_trip(number, wire_type, tail);
    assert(s.skip(tag_encoding(number, wire_type).len() as int) == tail);
}

/// `acc` with `slot` in the place of the field at index `i`.
pub open spec fn with_field(acc: MessageView, i: int, slot: FieldView) -> MessageView {
    MessageView { fields: acc.fields.update(i, slot) }
}

/// A value under a tag whose number a field of the reader answers to is
/// read as the value of the first such field, into the place of that
/// field, and reading goes on behind it.
pub proof fn lemma_known_field_read(
    schema: MessageSchema,
    acc: MessageView,
    i: int,
    number: u32,
    wire_type: u8,
    slot: FieldView,
    taken: nat,
    tail: Seq<u8>,
)
    requires
        0 <= i < schema.fields@.len(),
        tag_fits(number, wire_type),
        find_field(schema.fields@, number) == Some(i as nat),
        parse_value_of(schema.fields@[i], acc, i, number, wire_type, tail) == Ok::<
            (FieldView, nat),
            DecodeError,
        >((slot, taken)),
        taken <= tail.len(),
    ensures
        parse_fields(schema, acc, tag_encoding(number, wire_type) + tail) == parse_fields(
            schema,
            with_field(acc, i, slot),
            tail.skip(taken as int),
        ),
{
    lemma_parse_fields_tagged(schema, acc, number, wire_type, tail);
    lemma_parse_field_found(schema, 0, acc, number, wire_type, tail);
    lemma_find_field_from(schema.fields@, number, 0);
    let at = parse_field_at(schema, 0, acc, number, wire_type, tail);
    assert(at == parse_field_at(schema, i as nat, acc, number, wire_type, tail));
    assert(at == Ok::<(MessageView, nat), DecodeError>((with_field(acc, i, slot), taken)));
}

/// A scalar field that the reader knows is read into its place: what is
/// written of it, followed by more of the message, reads as the message
/// with the field set and what follows still to be read.
pub proof fn law_scalar_field_read(schema: MessageSchema, acc: MessageView, i: int, value: ValueView, rest: Seq<
    u8,
>)
    requires
        0 <= i < schema.fields@.len(),
        schema.fields@[i].kind is Scalar,
        !schema.fields@[i].repeated,
        leads(schema.fields@[i].numbers@),
        find_field(schema.fields@, schema.fields@[i].numbers@[0]) == Some(i as nat),
        value_fits(value, schema.fields@[i].kind->Scalar_0, schema.fields@[i].capacity as nat),
    ensures
        parse_fields(schema, acc, field_encoding(schema.fields@[i], FieldView::Scalar(value)) + rest)
            == parse_fields(schema, with_field(acc, i, FieldView::Scalar(value)), rest),
{
    let d = schema.fields@[i];
    let ty = d.kind->Scalar_0;
    let number = d.numbers@[0];
    let tail = value.encoding() + rest;
    let wt = ty.wire_type();
    assert(field_encoding(d, FieldView::Scalar(value)) + rest == tag_encoding(number, wt) + tail);
    law_value_round_trip(value, d.capacity as nat, d.name, rest);
    assert(tail.skip(value.encoding().len() as int) == rest);
    assert(parse_value_of(d, acc, i, number, wt, tail) == Ok::<(FieldView, nat), DecodeError>(
        (FieldView::Scalar(value), value.encoding().len()),
    ));
    lemma_known_field_read(schema, acc, i, number, wt, FieldView::Scalar(value), value.encoding().len(), tail);
}

/// One item of a repeated field that the reader knows is added to the
/// items that the field holds.
pub proof fn law_item_read(
    schema: MessageSchema,
    acc: MessageView,
    i: int,
    held: Seq<ValueView>,
    value: ValueView,
    rest: Seq<u8>,
)
    requires
        0 <= i < schema.fields@.len(),
        i < acc.fields.len(),
        schema.fields@[i].kind is Scalar,
        schema.fields@[i].repeated,
        leads(schema.fields@[i].numbers@),
        find_field(schema.fields@, schema.fields@[i].numbers@[0]) == Some(i as nat),
        value_fits(value, schema.fields@[i].kind->Scalar_0, schema.fields@[i].capacity as nat),
        acc.fields[i] == FieldView::Repeated(held),
        held.len() < schema.fields@[i].max_count,
    ensures
        parse_fields(
            schema,
            acc,
            tag_encoding(schema.fields@[i].numbers@[0], schema.fields@[i].kind->Scalar_0.wire_type())
                + value.encoding() + rest,
        ) == parse_fields(schema, with_field(acc, i, FieldView::Repeated(held.push(value))), rest),
{
    let d = schema.fields@[i];
    let ty = d.kind->Scalar_0;
    let number = d.numbers@[0];
    let tail = value.encoding() + rest;
    assert(tag_encoding(number, ty.wire_type()) + value.encoding() + rest == tag_encoding(
        number,
        ty.wire_type(),
    ) + tail);
    let wt = ty.wire_type();
    law_value_round_trip(value, d.capacity as nat, d.name, rest);
    assert(tail.skip(value.encoding().len() as int) == rest);
    assert(items_of(acc, i) == held);
    assert(!(wt == 2 && ty.packable()));
    assert(parse_repeated(ty, d.capacity as nat, d.name, d.max_count as nat, held, wt, tail) == Ok::<
        (Seq<ValueView>, nat),
        DecodeError,
    >((held.push(value), value.encoding().len())));
    assert(parse_value_of(d, acc, i, number, wt, tail) == Ok::<(FieldView, nat), DecodeError>(
        (FieldView::Repeated(held.push(value)), value.encoding().len()),
    ));
    lemma_known_field_read(
        schema,
        acc,
        i,
        number,
        wt,
        FieldView::Repeated(held.push(value)),
        value.encoding().len(),
        tail,
    );
}

/// The items of a repeated field that the reader knows, from index `j`
/// on, are added to the items before them, which the field already holds.
pub proof fn law_items_read(
    schema: MessageSchema,
    acc: MessageView,
    i: int,
    items: Seq<ValueView>,
    j: nat,
    rest: Seq<u8>,
)
    requires
        0 <= i < schema.fields@.len(),
        i < acc.fields.len(),
        schema.fields@[i].kind is Scalar,
        schema.fields@[i].repeated,
        leads(schema.fields@[i].numbers@),
        find_field(schema.fields@, schema.fields@[i].numbers@[0]) == Some(i as nat),
        j <= items.len() <= schema.fields@[i].max_count,
        forall|k: int|
            0 <= k < items.len() ==> value_fits(
                #[trigger] items[k],
                schema.fields@[i].kind->Scalar_0,
                schema.fields@[i].capacity as nat,
            ),
        acc.fields[i] == FieldView::Repeated(items.take(j as int)),
    ensures
        parse_fields(
            schema,
            acc,
            items_encoding(schema.fields@[i].numbers@[0], schema.fields@[i].kind->Scalar_0, items, j) + rest,
        ) == parse_fields(schema, with_field(acc, i, FieldView::Repeated(items)), rest),
    decreases items.len() - j,
{
    let d = schema.fields@[i];
    let ty = d.kind->Scalar_0;
    let number = d.numbers@[0];
    if j >= items.len() {
        assert(items.take(j as int) == items);
        assert(with_field(acc, i, FieldView::Repeated(items)).fields == acc.fields);
        assert(items_encoding(number, ty, items, j) + rest == rest);
    } else {
        let one = tag_encoding(number, ty.wire_type()) + items[j as int].encoding();
        let more = items_encoding(number, ty, items, j + 1);
        assert(items_encoding(number, ty, items, j) + rest == one + (more + rest));
        law_item_read(schema, acc, i, items.take(j as int), items[j as int], more + rest);
        let next = with_field(acc, i, FieldView::Repeated(items.take(j as int).push(items[j as int])));
        assert(items.take(j as int).push(items[j as int]) == items.take((j + 1) as int));
        law_items_read(schema, next, i, items, j + 1, rest);
        assert(with_field(next, i, FieldView::Repeated(items)).fields == with_field(
            acc,
            i,
            FieldView::Repeated(items),
        ).fields);
    }
}

/// An embedded message is read from the bytes that its length says are
/// its own, whatever follows them: when its bytes alone read as the
/// message, so do its bytes with their length in front and more behind.
pub proof fn law_nested_framing(sub: MessageSchema, m: MessageView, payload: Seq<u8>, rest: Seq<u8>)
    requires
        payload.len() <= u32::MAX,
        parse_message(sub, payload) == Ok::<MessageView, DecodeError>(m),
    ensures
        parse_nested(sub, delimited_encoding(payload) + rest) == Ok::<(MessageView, nat), DecodeError>(
            (m, delimited_encoding(payload).len()),
        ),
{
    let head = varint_encoding(payload.len());
    let s = delimited_encoding(payload) + rest;
    assert(s == head + (payload + rest));
    law_uint32_round_trip(payload.len() as u32, payload + rest);
    assert(s.skip(head.len() as int) == payload + rest);
    assert((payload + rest).take(payload.len() as int) == payload);
}

/// The value of a field that holds a message is an embedded message.
proof fn lemma_parse_value_of_message(d: FieldDescriptor, acc: MessageView, i: int, number: u32, wire_type: u8, s: Seq<
    u8,
>)
    requires
        d.kind is Message,
    ensures
        parse_value_of(d, acc, i, number, wire_type, s) == match parse_nested(d.kind->Message_0, s) {
            Ok((m, taken)) => Ok::<(FieldView, nat), DecodeError>((FieldView::Message(m), taken)),
            Err(e) => Err(e),
        },
{
}

/// An embedded message that the reader knows is read into its place,
/// when its bytes alone read as the message.
pub proof fn law_message_field_read(schema: MessageSchema, acc: MessageView, i: int, m: MessageView, rest: Seq<
    u8,
>)
    requires
        0 <= i < schema.fields@.len(),
        schema.fields@[i].kind is Message,
        leads(schema.fields@[i].numbers@),
        find_field(schema.fields@, schema.fields@[i].numbers@[0]) == Some(i as nat),
        message_encoding(schema.fields@[i].kind->Message_0, m).len() <= u32::MAX,
        parse_message(
            schema.fields@[i].kind->Message_0,
            message_encoding(schema.fields@[i].kind->Message_0, m),
        ) == Ok::<MessageView, DecodeError>(m),
    ensures
        parse_fields(schema, acc, field_encoding(schema.fields@[i], FieldView::Message(m)) + rest)
            == parse_fields(schema, with_field(acc, i, FieldView::Message(m)), rest),
{
    let d = schema.fields@[i];
    let sub = d.kind->Message_0;
    let number = d.numbers@[0];
    let payload = message_encoding(sub, m);
    let tail = delimited_encoding(payload) + rest;
    assert(field_encoding(d, FieldView::Message(m)) + rest == tag_encoding(number, 2) + tail);
    law_nested_framing(sub, m, payload, rest);
    assert(tail.skip(delimited_encoding(payload).len() as int) == rest);
    lemma_parse_value_of_message(d, acc, i, number, 2, tail);
    lemma_known_field_read(
        schema,
        acc,
        i,
        number,
        2,
        FieldView::Message(m),
        delimited_encoding(payload).len(),
        tail,
    );
}

/// Whether what a variant carries reads back from its bytes: a scalar
/// because it fits, a message because its bytes alone read as it.
pub open spec fn payload_reads_back(v: Variant, p: PayloadView) -> bool {
    match (v.kind, p) {
        (VariantKind::Scalar(ty), PayloadView::Scalar(value)) => value_fits(value, ty, v.capacity as nat),
        (VariantKind::Message(sub), PayloadView::Message(m)) => message_encoding(sub, m).len() <= u32::MAX
            && parse_message(sub, message_encoding(sub, m)) == Ok::<MessageView, DecodeError>(m),
        _ => false,
    }
}

/// The wire type that a variant is sent with.
pub open spec fn variant_wire_type(v: Variant) -> u8 {
    match v.kind {
        VariantKind::Scalar(ty) => ty.wire_type(),
        VariantKind::Message(_) => 2,
    }
}

/// The bytes of what a variant carries, without the tag.
pub open spec fn payload_encoding(v: Variant, p: PayloadView) -> Seq<u8> {
    match (v.kind, p) {
        (VariantKind::Scalar(_), PayloadView::Scalar(value)) => value.encoding(),
        (VariantKind::Message(sub), PayloadView::Message(m)) => delimited_encoding(message_encoding(sub, m)),
        _ => Seq::empty(),
    }
}

/// The bytes of the variant that a oneof holds are a tag and the bytes of
/// what the variant carries.
pub proof fn lemma_chosen_encoding(variants: Vec<Variant>, c: ChosenView)
    requires
        c.variant < variants@.len(),
        leads(variants@[c.variant as int].numbers@),
        payload_reads_back(variants@[c.variant as int], c.payload),
    ensures
        chosen_encoding(variants, c) == tag_encoding(
            variants@[c.variant as int].numbers@[0],
            variant_wire_type(variants@[c.variant as int]),
        ) + payload_encoding(variants@[c.variant as int], c.payload),
        tag_fits(variants@[c.variant as int].numbers@[0], variant_wire_type(variants@[c.variant as int])),
{
}

/// What a variant carries reads back as that variant, when the number it
/// is sent under selects it first.
pub proof fn lemma_variant_read(variants: Vec<Variant>, c: ChosenView, rest: Seq<u8>)
    requires
        c.variant < variants@.len(),
        leads(variants@[c.variant as int].numbers@),
        find_variant_from(variants@, variants@[c.variant as int].numbers@[0], 0) == Some(c.variant),
        payload_reads_back(variants@[c.variant as int], c.payload),
    ensures
        parse_variant_at(
            variants,
            0,
            variants@[c.variant as int].numbers@[0],
            payload_encoding(variants@[c.variant as int], c.payload) + rest,
        ) == Ok::<(ChosenView, nat), DecodeError>(
            (c, payload_encoding(variants@[c.variant as int], c.payload).len()),
        ),
{
    let v = variants@[c.variant as int];
    let number = v.numbers@[0];
    let tail = payload_encoding(v, c.payload) + rest;
    lemma_parse_variant_found(variants, 0, number, tail);
    crate::schema::lemma_find_variant_from(variants@, number, 0);
    assert(parse_variant_at(variants, 0, number, tail) == parse_variant_at(variants, c.variant, number, tail));
    match (v.kind, c.payload) {
        (VariantKind::Scalar(ty), PayloadView::Scalar(value)) => {
            law_value_round_trip(value, v.capacity as nat, v.name, rest);
        },
        (VariantKind::Message(sub), PayloadView::Message(m)) => {
            law_nested_framing(sub, m, message_encoding(sub, m), rest);
        },
        _ => {},
    }
}

/// The variant that a oneof holds is read into the place of the oneof as
/// that variant and no other, when the reader finds the oneof and the
/// variant by the number that the variant is sent under.
pub proof fn law_oneof_field_read(schema: MessageSchema, acc: MessageView, i: int, c: ChosenView, rest: Seq<u8>)
    requires
        0 <= i < schema.fields@.len(),
        schema.fields@[i].kind is Oneof,
        leads(schema.fields@[i].numbers@),
        c.variant < schema.fields@[i].kind->Oneof_0@.len(),
        leads(schema.fields@[i].kind->Oneof_0@[c.variant as int].numbers@),
        find_field(schema.fields@, schema.fields@[i].kind->Oneof_0@[c.variant as int].numbers@[0]) == Some(
            i as nat,
        ),
        find_variant_from(
            schema.fields@[i].kind->Oneof_0@,
            schema.fields@[i].kind->Oneof_0@[c.variant as int].numbers@[0],
            0,
        ) == Some(c.variant),
        payload_reads_back(schema.fields@[i].kind->Oneof_0@[c.variant as int], c.payload),
    ensures
        parse_fields(schema, acc, field_encoding(schema.fields@[i], FieldView::Oneof(Some(c))) + rest)
            == parse_fields(schema, with_field(acc, i, FieldView::Oneof(Some(c))), rest),
{
    let d = schema.fields@[i];
    let variants = d.kind->Oneof_0;
    let v = variants@[c.variant as int];
    let number = v.numbers@[0];
    let wt = variant_wire_type(v);
    let body = payload_encoding(v, c.payload);
    let tail = body + rest;
    lemma_chosen_encoding(variants, c);
    assert(field_encoding(d, FieldView::Oneof(Some(c))) == chosen_encoding(variants, c));
    assert(chosen_encoding(variants, c) + rest == tag_encoding(number, wt) + tail);
    lemma_variant_read(variants, c, rest);
    assert(tail.skip(body.len() as int) == rest);
    assert(parse_value_of(d, acc, i, number, wt, tail) == Ok::<(FieldView, nat), DecodeError>(
        (FieldView::Oneof(Some(c)), body.len()),
    ));
    lemma_known_field_read(schema, acc, i, number, wt, FieldView::Oneof(Some(c)), body.len(), tail);
}

/// What well-formedness says of the field at index `i`.
pub proof fn lemma_well_formed_field(schema: MessageSchema, i: int)
    requires
        well_formed(schema),
        0 <= i < schema.fields@.len(),
    ensures
        numbered(schema.fields@[i].numbers@),
        leads(schema.fields@[i].numbers@),
        find_field(schema.fields@, schema.fields@[i].numbers@[0]) == Some(i as nat),
        match schema.fields@[i].kind {
            FieldKind::Scalar(_) => true,
            FieldKind::Oneof(variants) => variants_well_formed(variants, schema.fields@[i].numbers@),
            FieldKind::Message(sub) => well_formed(sub),
        },
{
    let d = schema.fields@[i];
    assert(numbered(d.numbers@));
    let number = d.numbers@[0];
    assert(d.numbers@.contains(number));
    lemma_first_answer(schema, i, number);
}

/// What well-formedness says of the variant at index `j`.
pub proof fn lemma_well_formed_variant(variants: Vec<Variant>, owner: Seq<u32>, j: int)
    requires
        variants_well_formed(variants, owner),
        0 <= j < variants@.len(),
    ensures
        numbered(variants@[j].numbers@),
        leads(variants@[j].numbers@),
        find_variant_from(variants@, variants@[j].numbers@[0], 0) == Some(j as nat),
        owner.contains(variants@[j].numbers@[0]),
        match variants@[j].kind {
            VariantKind::Scalar(_) => true,
            VariantKind::Message(sub) => well_formed(sub),
        },
{
    let v = variants@[j];
    assert(numbered(v.numbers@));
    let number = v.numbers@[0];
    assert(v.numbers@.contains(number));
    lemma_first_variant(variants, owner, j, number);
}

/// In a well-formed schema, the first field that answers to a number of
/// the field at index `i` is that field.
pub proof fn lemma_first_answer(schema: MessageSchema, i: int, number: u32)
    requires
        well_formed(schema),
        0 <= i < schema.fields@.len(),
        schema.fields@[i].numbers@.contains(number),
    ensures
        find_field(schema.fields@, number) == Some(i as nat),
{
    assert forall|j: int| 0 <= j < i implies !schema.fields@[j].numbers@.contains(number) by {
        assert(disjoint(schema.fields@[j].numbers@, schema.fields@[i].numbers@));
    }
    lemma_find_field_is(schema.fields@, number, 0, i as nat);
}

/// Among well-formed variants, the first that a number of the variant at
/// index `j` selects is that variant.
pub proof fn lemma_first_variant(variants: Vec<Variant>, owner: Seq<u32>, j: int, number: u32)
    requires
        variants_well_formed(variants, owner),
        0 <= j < variants@.len(),
        variants@[j].numbers@.contains(number),
    ensures
        find_variant_from(variants@, number, 0) == Some(j as nat),
        owner.contains(number),
{
    assert forall|k: int| 0 <= k < j implies !variants@[k].numbers@.contains(number) by {
        assert(disjoint(variants@[k].numbers@, variants@[j].numbers@));
    }
    lemma_find_variant_is(variants@, number, 0, j as nat);
}

/// The message of which the fields before index `i` have been read: those
/// fields are as in `m`, the others as in the message that nothing was read
/// into.
pub open spec fn read_up_to(schema: MessageSchema, m: MessageView, i: nat) -> MessageView {
    MessageView {
        fields: Seq::new(
            schema.fields@.len(),
            |j: int|
                if j < i {
                    m.fields[j]
                } else if 0 <= j < schema.fields@.len() {
                    initial_field(schema.fields@[j])
                } else {
                    FieldView::Oneof(None)
                },
        ),
    }
}

/// Whether what a field holds reads back from its bytes, as far as that
/// is a matter of the messages embedded in it.
pub open spec fn embedded_read_back(d: FieldDescriptor, f: FieldView) -> bool {
    match (d.kind, f) {
        (FieldKind::Oneof(variants), FieldView::Oneof(Some(c))) => c.variant < variants@.len()
            && payload_reads_back(variants@[c.variant as int], c.payload),
        (FieldKind::Message(sub), FieldView::Message(m)) => parse_message(sub, message_encoding(sub, m))
            == Ok::<MessageView, DecodeError>(m),
        _ => true,
    }
}

/// Whether the reader finds the field at index `k` of its schema under
/// every number of that field, and the field is well formed.
pub open spec fn found_at(schema: MessageSchema, k: int) -> bool {
    &&& 0 <= k < schema.fields@.len()
    &&& numbered(schema.fields@[k].numbers@)
    &&& forall|n: u32|
        schema.fields@[k].numbers@.contains(n) ==> find_field(schema.fields@, n) == Some(k as nat)
    &&& match schema.fields@[k].kind {
        FieldKind::Oneof(variants) => variants_well_formed(variants, schema.fields@[k].numbers@),
        _ => true,
    }
}

/// A field that the reader knows, as it is written, is read into its
/// place: what is written of the field, followed by more of the message,
/// reads as the message with the field set and what follows still to be
/// read.
pub proof fn law_field_read(schema: MessageSchema, acc: MessageView, k: int, f: FieldView, rest: Seq<u8>)
    requires
        found_at(schema, k),
        k < acc.fields.len(),
        acc.fields[k] == initial_field(schema.fields@[k]),
        field_fits(schema.fields@[k], f),
        embedded_read_back(schema.fields@[k], f),
    ensures
        parse_fields(schema, acc, field_encoding(schema.fields@[k], f) + rest) == parse_fields(
            schema,
            with_field(acc, k, f),
            rest,
        ),
{
    let d = schema.fields@[k];
    assert(d.numbers@.contains(d.numbers@[0]));
    match (d.kind, f) {
        (FieldKind::Scalar(_), FieldView::Scalar(value)) => {
            law_scalar_field_read(schema, acc, k, value, rest);
        },
        (FieldKind::Scalar(_), FieldView::Repeated(items)) => {
            assert(items.take(0) == Seq::<ValueView>::empty());
            law_items_read(schema, acc, k, items, 0, rest);
        },
        (FieldKind::Oneof(_), FieldView::Oneof(None)) => {
            assert(field_encoding(d, f) + rest == rest);
            assert(with_field(acc, k, f).fields == acc.fields);
        },
        (FieldKind::Oneof(variants), FieldView::Oneof(Some(c))) => {
            lemma_well_formed_variant(variants, d.numbers@, c.variant as int);
            law_oneof_field_read(schema, acc, k, c, rest);
        },
        (FieldKind::Message(_), FieldView::Message(inner)) => {
            law_message_field_read(schema, acc, k, inner, rest);
        },
        _ => {},
    }
}

/// In a well-formed schema the reader finds every field.
pub proof fn lemma_well_formed_found(schema: MessageSchema, i: int)
    requires
        well_formed(schema),
        0 <= i < schema.fields@.len(),
    ensures
        found_at(schema, i),
{
    assert(numbered(schema.fields@[i].numbers@));
    assert forall|n: u32| schema.fields@[i].numbers@.contains(n) implies find_field(schema.fields@, n)
        == Some(i as nat) by {
        lemma_first_answer(schema, i, n);
    }
}

/// The field at index `i`, as it is written, reads back into its place.
pub proof fn lemma_field_round_trip(schema: MessageSchema, m: MessageView, i: nat, rest: Seq<u8>)
    requires
        well_formed(schema),
        m.fields.len() == schema.fields@.len(),
        i < schema.fields@.len(),
        field_fits(schema.fields@[i as int], m.fields[i as int]),
        embedded_read_back(schema.fields@[i as int], m.fields[i as int]),
    ensures
        parse_fields(
            schema,
            read_up_to(schema, m, i),
            field_encoding(schema.fields@[i as int], m.fields[i as int]) + rest,
        ) == parse_fields(schema, read_up_to(schema, m, i + 1), rest),
{
    let acc = read_up_to(schema, m, i);
    lemma_well_formed_found(schema, i as int);
    law_field_read(schema, acc, i as int, m.fields[i as int], rest);
    assert(with_field(acc, i as int, m.fields[i as int]).fields == read_up_to(schema, m, i + 1).fields);
}

/// The messages embedded in the field at index `i` read back as they
/// were.
pub proof fn lemma_embedded_round_trip(schema: MessageSchema, m: MessageView, i: nat)
    requires
        well_formed(schema),
        fits(schema, m),
        i < schema.fields@.len(),
    ensures
        field_fits(schema.fields@[i as int], m.fields[i as int]),
        embedded_read_back(schema.fields@[i as int], m.fields[i as int]),
    decreases schema, 0nat, 0nat,
{
    let d = schema.fields@[i as int];
    let f = m.fields[i as int];
    assert(field_fits(d, f));
    lemma_well_formed_field(schema, i as int);
    match (d.kind, f) {
        (FieldKind::Oneof(variants), FieldView::Oneof(Some(c))) => {
            let v = variants@[c.variant as int];
            lemma_well_formed_variant(variants, d.numbers@, c.variant as int);
            match (v.kind, c.payload) {
                (VariantKind::Message(sub), PayloadView::Message(inner)) => {
                    law_message_round_trip(sub, inner);
                },
                _ => {},
            }
        },
        (FieldKind::Message(sub), FieldView::Message(inner)) => {
            law_message_round_trip(sub, inner);
        },
        _ => {},
    }
}

/// The fields of a message from index `i` on, as they are written, read
/// back into the message of which the fields before `i` have been read,
/// and complete it.
pub proof fn lemma_fields_round_trip(schema: MessageSchema, m: MessageView, i: nat)
    requires
        well_formed(schema),
        fits(schema, m),
        i <= schema.fields@.len(),
    ensures
        parse_fields(schema, read_up_to(schema, m, i), fields_encoding(schema, m, i)) == Ok::<
            MessageView,
            DecodeError,
        >(m),
    decreases schema, 1nat, schema.fields@.len() - i,
{
    if i >= schema.fields@.len() {
        assert(read_up_to(schema, m, i).fields == m.fields);
        assert(fields_encoding(schema, m, i) == Seq::<u8>::empty());
    } else {
        let rest = fields_encoding(schema, m, i + 1);
        assert(fields_encoding(schema, m, i) == field_encoding(schema.fields@[i as int], m.fields[i as int])
            + rest);
        lemma_embedded_round_trip(schema, m, i);
        lemma_field_round_trip(schema, m, i, rest);
        lemma_fields_round_trip(schema, m, i + 1);
    }
}

/// A message that its schema can hold, written under a well-formed schema,
/// reads back under that schema as the message it was.
pub proof fn law_message_round_trip(schema: MessageSchema, m: MessageView)
    requires
        well_formed(schema),
        fits(schema, m),
    ensures
        parse_message(schema, message_encoding(schema, m)) == Ok::<MessageView, DecodeError>(m),
    decreases schema, 2nat, 0nat,
{
    assert(read_up_to(schema, m, 0).fields == initial_message(schema).fields);
    lemma_fields_round_trip(schema, m, 0);
}

/// A list of no items takes no bytes at all.
pub proof fn law_empty_list_sends_nothing(d: FieldDescriptor)
    ensures
        field_encoding(d, FieldView::Repeated(Seq::empty())) == Seq::<u8>::empty(),
{
    if d.numbers@.len() > 0 {
        match d.kind {
            FieldKind::Scalar(ty) => {
                assert(items_encoding(d.numbers@[0], ty, Seq::empty(), 0) == Seq::<u8>::empty());
            },
            _ => {},
        }
    }
}

/// A oneof that holds nothing takes no bytes at all.
pub proof fn law_unset_oneof_sends_nothing(d: FieldDescriptor)
    ensures
        field_encoding(d, FieldView::Oneof(None)) == Seq::<u8>::empty(),
{
}

/// A value that arrives under a number of a oneof that selects none of
/// its variants fails the message.
pub proof fn law_unselected_variant_fails(
    schema: MessageSchema,
    acc: MessageView,
    i: int,
    number: u32,
    wire_type: u8,
    tail: Seq<u8>,
)
    requires
        0 <= i < schema.fields@.len(),
        schema.fields@[i].kind is Oneof,
        tag_fits(number, wire_type),
        find_field(schema.fields@, number) == Some(i as nat),
        find_variant_from(schema.fields@[i].kind->Oneof_0@, number, 0) is None,
    ensures
        parse_fields(schema, acc, tag_encoding(number, wire_type) + tail) == Err::<MessageView, DecodeError>(
            DecodeError::UnexpectedEndOfBuffer,
        ),
{
    let variants = schema.fields@[i].kind->Oneof_0;
    lemma_parse_fields_tagged(schema, acc, number, wire_type, tail);
    lemma_parse_field_found(schema, 0, acc, number, wire_type, tail);
    lemma_find_field_from(schema.fields@, number, 0);
    lemma_parse_variant_found(variants, 0, number, tail);
    let at = parse_field_at(schema, 0, acc, number, wire_type, tail);
    assert(at == parse_field_at(schema, i as nat, acc, number, wire_type, tail));
    assert(parse_value_of(schema.fields@[i], acc, i, number, wire_type, tail) == Err::<
        (FieldView, nat),
        DecodeError,
    >(DecodeError::UnexpectedEndOfBuffer));
}

/// The number under which a field is written: its own first number, or
/// that of the variant it holds.
pub open spec fn sent_under(d: FieldDescriptor, f: FieldView) -> u32 {
    match (d.kind, f) {
        (FieldKind::Oneof(variants), FieldView::Oneof(Some(c))) => variants@[c.variant as int].numbers@[0],
        _ => d.numbers@[0],
    }
}

/// Whether a field can be written: it has a first number that fits in a
/// tag, and so has the variant it holds.
pub open spec fn can_be_sent(d: FieldDescriptor, f: FieldView) -> bool {
    &&& leads(d.numbers@)
    &&& match (d.kind, f) {
        (FieldKind::Oneof(variants), FieldView::Oneof(Some(c))) => c.variant < variants@.len() && leads(
            variants@[c.variant as int].numbers@,
        ),
        _ => true,
    }
}

/// The items of a list that the reader does not know, from index `j` on,
/// are passed over.
pub proof fn law_unknown_items_passed_over(
    schema: MessageSchema,
    acc: MessageView,
    number: u32,
    ty: ScalarType,
    items: Seq<ValueView>,
    j: nat,
    rest: Seq<u8>,
)
    requires
        number < 0x2000_0000,
        find_field(schema.fields@, number) is None,
        forall|k: int|
            0 <= k < items.len() ==> (#[trigger] items[k]).scalar_type() == ty && items[k].payload_len()
                <= u32::MAX,
    ensures
        parse_fields(schema, acc, items_encoding(number, ty, items, j) + rest) == parse_fields(
            schema,
            acc,
            rest,
        ),
    decreases items.len() - j,
{
    if j >= items.len() {
        assert(items_encoding(number, ty, items, j) + rest == rest);
    } else {
        let value = items[j as int];
        let more = items_encoding(number, ty, items, j + 1);
        let tail = value.encoding() + (more + rest);
        assert(items_encoding(number, ty, items, j) + rest == tag_encoding(number, ty.wire_type()) + tail);
        lemma_parse_fields_tagged(schema, acc, number, ty.wire_type(), tail);
        lemma_parse_field_found(schema, 0, acc, number, ty.wire_type(), tail);
        law_value_passed_over(value, more + rest);
        assert(tail.skip(value.encoding().len() as int) == more + rest);
        law_unknown_items_passed_over(schema, acc, number, ty, items, j + 1, rest);
    }
}

/// A run of bytes under a tag that the reader does not know is passed
/// over.
pub proof fn law_unknown_delimited_passed_over(
    schema: MessageSchema,
    acc: MessageView,
    number: u32,
    payload: Seq<u8>,
    rest: Seq<u8>,
)
    requires
        number < 0x2000_0000,
        find_field(schema.fields@, number) is None,
        payload.len() <= u32::MAX,
    ensures
        parse_fields(schema, acc, tag_encoding(number, 2) + delimited_encoding(payload) + rest)
            == parse_fields(schema, acc, rest),
{
    let tail = delimited_encoding(payload) + rest;
    assert(tag_encoding(number, 2) + delimited_encoding(payload) + rest == tag_encoding(number, 2) + tail);
    lemma_parse_fields_tagged(schema, acc, number, 2, tail);
    lemma_parse_field_found(schema, 0, acc, number, 2, tail);
    law_delimited_passed_over(payload, rest);
    assert(tail.skip(delimited_encoding(payload).len() as int) == rest);
}

/// A scalar value under a tag that the reader does not know is passed
/// over.
pub proof fn law_unknown_value_passed_over(
    schema: MessageSchema,
    acc: MessageView,
    number: u32,
    value: ValueView,
    rest: Seq<u8>,
)
    requires
        number < 0x2000_0000,
        find_field(schema.fields@, number) is None,
        value.payload_len() <= u32::MAX,
    ensures
        parse_fields(
            schema,
            acc,
            tag_encoding(number, value.scalar_type().wire_type()) + value.encoding() + rest,
        ) == parse_fields(schema, acc, rest),
{
    let wt = value.scalar_type().wire_type();
    let tail = value.encoding() + rest;
    assert(tag_encoding(number, wt) + value.encoding() + rest == tag_encoding(number, wt) + tail);
    lemma_parse_fields_tagged(schema, acc, number, wt, tail);
    lemma_parse_field_found(schema, 0, acc, number, wt, tail);
    law_value_passed_over(value, rest);
    assert(tail.skip(value.encoding().len() as int) == rest);
}

/// A field that the reader does not know is passed over: what is written
/// of a field under a number that no field of the reader's schema answers
/// to leaves the message as it was, and what follows is read as if the
/// field had not been there.
pub proof fn law_unknown_field_passed_over(
    schema: MessageSchema,
    acc: MessageView,
    d: FieldDescriptor,
    f: FieldView,
    rest: Seq<u8>,
)
    requires
        can_be_sent(d, f),
        field_fits(d, f),
        find_field(schema.fields@, sent_under(d, f)) is None,
    ensures
        parse_fields(schema, acc, field_encoding(d, f) + rest) == parse_fields(schema, acc, rest),
{
    let number = sent_under(d, f);
    match (d.kind, f) {
        (FieldKind::Scalar(ty), FieldView::Scalar(value)) => {
            law_unknown_value_passed_over(schema, acc, number, value, rest);
        },
        (FieldKind::Scalar(ty), FieldView::Repeated(items)) => {
            law_unknown_items_passed_over(schema, acc, number, ty, items, 0, rest);
        },
        (FieldKind::Oneof(_), FieldView::Oneof(None)) => {
            assert(field_encoding(d, f) + rest == rest);
        },
        (FieldKind::Oneof(variants), FieldView::Oneof(Some(c))) => {
            let v = variants@[c.variant as int];
            assert(field_encoding(d, f) == chosen_encoding(variants, c));
            match (v.kind, c.payload) {
                (VariantKind::Scalar(ty), PayloadView::Scalar(value)) => {
                    law_unknown_value_passed_over(schema, acc, number, value, rest);
                },
                (VariantKind::Message(sub), PayloadView::Message(m)) => {
                    law_unknown_delimited_passed_over(schema, acc, number, message_encoding(sub, m), rest);
                },
                _ => {},
            }
        },
        (FieldKind::Message(sub), FieldView::Message(m)) => {
            law_unknown_delimited_passed_over(schema, acc, number, message_encoding(sub, m), rest);
        },
        _ => {},
    }
}

// ---------------------------------------------------------------------------
// Writer and reader with different schemas
// ---------------------------------------------------------------------------

/// Whether `place` says where the reader has each field of the writer:
/// for each field of the writer's schema either the index of the same field
/// in the reader's schema, where the reader finds it under each of its
/// numbers, or nothing, when the reader has no field that answers to any of
/// its numbers. No two fields of the writer are the same field of the
/// reader.
pub open spec fn placed(writer: MessageSchema, reader: MessageSchema, place: Seq<Option<int>>) -> bool {
    &&& place.len() == writer.fields@.len()
    &&& forall|i: int|
        0 <= i < place.len() ==> match #[trigger] place[i] {
            Some(k) => found_at(reader, k) && reader.fields@[k] == writer.fields@[i],
            None => forall|n: u32|
                writer.fields@[i].numbers@.contains(n) ==> find_field(reader.fields@, n) is None,
        }
    &&& forall|i: int, j: int|
        0 <= i < j < place.len() && place[i] is Some ==> #[trigger] place[i] != #[trigger] place[j]
}

/// What the reader has made of the first `i` fields of the writer's
/// message: its own initial message, with each of those fields that it
/// knows in its place.
pub open spec fn carried(reader: MessageSchema, place: Seq<Option<int>>, m: MessageView, i: nat) -> MessageView
    decreases i,
{
    if i == 0 {
        initial_message(reader)
    } else {
        let before = carried(reader, place, m, (i - 1) as nat);
        match place[i - 1] {
            Some(k) => with_field(before, k, m.fields[i - 1]),
            None => before,
        }
    }
}

/// What was carried over has the shape of the reader's message, and a
/// place that no field has been put in yet holds what it held at first.
pub proof fn lemma_carried(reader: MessageSchema, place: Seq<Option<int>>, m: MessageView, i: nat, k: int)
    requires
        i <= place.len(),
        forall|j: int| 0 <= j < place.len() ==> (#[trigger] place[j] matches Some(h) ==> 0 <= h
            < reader.fields@.len()),
        0 <= k < reader.fields@.len(),
        forall|j: int| 0 <= j < i ==> #[trigger] place[j] != Some(k),
    ensures
        carried(reader, place, m, i).fields.len() == reader.fields@.len(),
        carried(reader, place, m, i).fields[k] == initial_field(reader.fields@[k]),
    decreases i,
{
    if i > 0 {
        lemma_carried(reader, place, m, (i - 1) as nat, k);
        assert(place[i - 1] != Some(k));
    }
}

/// What one schema writes, another reads: each field that the reader
/// knows arrives in its place, each field that it does not know is passed
/// over, and the fields of the reader that the writer did not send stay
/// as they were at first.
pub proof fn law_read_across(
    writer: MessageSchema,
    reader: MessageSchema,
    place: Seq<Option<int>>,
    m: MessageView,
    i: nat,
)
    requires
        well_formed(writer),
        fits(writer, m),
        placed(writer, reader, place),
        i <= writer.fields@.len(),
    ensures
        parse_fields(reader, carried(reader, place, m, i), fields_encoding(writer, m, i)) == Ok::<
            MessageView,
            DecodeError,
        >(carried(reader, place, m, writer.fields@.len())),
    decreases writer.fields@.len() - i,
{
    let acc = carried(reader, place, m, i);
    if i >= writer.fields@.len() {
        crate::laws::lemma_parse_tag_empty(Seq::<u8>::empty());
        assert(fields_encoding(writer, m, i) == Seq::<u8>::empty());
    } else {
        let d = writer.fields@[i as int];
        let f = m.fields[i as int];
        let rest = fields_encoding(writer, m, i + 1);
        assert(fields_encoding(writer, m, i) == field_encoding(d, f) + rest);
        lemma_embedded_round_trip(writer, m, i);
        lemma_well_formed_field(writer, i as int);
        match place[i as int] {
            Some(k) => {
                assert forall|j: int| 0 <= j < place.len() implies (#[trigger] place[j] matches Some(h) ==> 0
                    <= h < reader.fields@.len()) by {
                    if place[j] is Some {
                        assert(found_at(reader, place[j]->Some_0));
                    }
                }
                lemma_carried(reader, place, m, i, k);
                law_field_read(reader, acc, k, f, rest);
            },
            None => {
                lemma_sent_under(writer, m, i);
                law_unknown_field_passed_over(reader, acc, d, f, rest);
            },
        }
        law_read_across(writer, reader, place, m, i + 1);
    }
}

/// A field of a well-formed schema that holds what it can hold can be
/// sent, under one of its own numbers.
pub proof fn lemma_sent_under(schema: MessageSchema, m: MessageView, i: nat)
    requires
        well_formed(schema),
        fits(schema, m),
        i < schema.fields@.len(),
    ensures
        can_be_sent(schema.fields@[i as int], m.fields[i as int]),
        schema.fields@[i as int].numbers@.contains(sent_under(schema.fields@[i as int], m.fields[i as int])),
{
    let d = schema.fields@[i as int];
    let f = m.fields[i as int];
    assert(field_fits(d, f));
    lemma_well_formed_field(schema, i as int);
    assert(d.numbers@.contains(d.numbers@[0]));
    match (d.kind, f) {
        (FieldKind::Oneof(variants), FieldView::Oneof(Some(c))) => {
            lemma_well_formed_variant(variants, d.numbers@, c.variant as int);
        },
        _ => {},
    }
}

// ---------------------------------------------------------------------------
// A reader that lacks fields
// ---------------------------------------------------------------------------

/// Whether `narrow` is `wide` without some of its fields: `keep` lists,
/// for each field of `narrow`, the index of that field in `wide`, and no
/// index twice.
pub open spec fn narrowed(wide: MessageSchema, narrow: MessageSchema, keep: Seq<int>) -> bool {
    &&& keep.len() == narrow.fields@.len()
    &&& forall|k: int|
        0 <= k < keep.len() ==> 0 <= #[trigger] keep[k] < wide.fields@.len() && narrow.fields@[k]
            == wide.fields@[keep[k]]
    &&& forall|j: int, k: int| 0 <= j < k < keep.len() ==> #[trigger] keep[j] != #[trigger] keep[k]
}

/// The fields of `m` that were kept, in the order of `keep`.
pub open spec fn kept(m: MessageView, keep: Seq<int>) -> MessageView {
    MessageView { fields: Seq::new(keep.len(), |k: int| m.fields[keep[k]]) }
}

/// The message of `wide` in which the fields that were kept are as in
/// `m` and the others as they are at first.
pub open spec fn restored(wide: MessageSchema, m: MessageView, keep: Seq<int>) -> MessageView {
    MessageView {
        fields: Seq::new(
            wide.fields@.len(),
            |i: int|
                if keep.contains(i) {
                    m.fields[i]
                } else if 0 <= i < wide.fields@.len() {
                    initial_field(wide.fields@[i])
                } else {
                    FieldView::Oneof(None)
                },
        ),
    }
}

/// A field that was kept shares no number with any other field of the
/// wide schema.
proof fn lemma_kept_apart(wide: MessageSchema, narrow: MessageSchema, keep: Seq<int>, j: int, i: int)
    requires
        well_formed(wide),
        narrowed(wide, narrow, keep),
        0 <= j < keep.len(),
        0 <= i < wide.fields@.len(),
        keep[j] != i,
    ensures
        disjoint(narrow.fields@[j].numbers@, wide.fields@[i].numbers@),
{
    let h = keep[j];
    if h < i {
        assert(disjoint(wide.fields@[h].numbers@, wide.fields@[i].numbers@));
    } else {
        assert(disjoint(wide.fields@[i].numbers@, wide.fields@[h].numbers@));
    }
}

/// A schema that is a well-formed schema without some of its fields is
/// well formed, and holds the fields that were kept of a message that the
/// wide schema holds.
proof fn lemma_narrowed_well_formed(wide: MessageSchema, narrow: MessageSchema, keep: Seq<int>, m: MessageView)
    requires
        well_formed(wide),
        fits(wide, m),
        narrowed(wide, narrow, keep),
    ensures
        well_formed(narrow),
        fits(narrow, kept(m, keep)),
{
    assert forall|k: int| 0 <= k < narrow.fields@.len() implies {
        &&& numbered((#[trigger] narrow.fields@[k]).numbers@)
        &&& match narrow.fields@[k].kind {
            FieldKind::Scalar(_) => true,
            FieldKind::Oneof(variants) => variants_well_formed(variants, narrow.fields@[k].numbers@),
            FieldKind::Message(sub) => well_formed(sub),
        }
    } by {
        lemma_well_formed_field(wide, keep[k]);
    }
    assert forall|j: int, k: int| 0 <= j < k < narrow.fields@.len() implies disjoint(
        (#[trigger] narrow.fields@[j]).numbers@,
        (#[trigger] narrow.fields@[k]).numbers@,
    ) by {
        lemma_kept_apart(wide, narrow, keep, j, keep[k]);
    }
    assert forall|k: int| 0 <= k < narrow.fields@.len() implies field_fits(
        #[trigger] narrow.fields@[k],
        kept(m, keep).fields[k],
    ) by {
        assert(field_fits(wide.fields@[keep[k]], m.fields[keep[k]]));
    }
}

/// Where the narrow schema has each field of the wide one.
pub open spec fn narrow_place(wide: MessageSchema, keep: Seq<int>) -> Seq<Option<int>> {
    Seq::new(
        wide.fields@.len(),
        |i: int|
            if keep.contains(i) {
                Some(keep.index_of(i))
            } else {
                None
            },
    )
}

/// Where the wide schema has each field of the narrow one.
pub open spec fn wide_place(keep: Seq<int>) -> Seq<Option<int>> {
    Seq::new(keep.len(), |k: int| Some(keep[k]))
}

/// The narrow schema finds each field that was kept, and no other.
proof fn lemma_narrow_placed(wide: MessageSchema, narrow: MessageSchema, keep: Seq<int>)
    requires
        well_formed(wide),
        narrowed(wide, narrow, keep),
    ensures
        placed(wide, narrow, narrow_place(wide, keep)),
{
    let place = narrow_place(wide, keep);
    assert forall|i: int| 0 <= i < place.len() implies match #[trigger] place[i] {
        Some(k) => found_at(narrow, k) && narrow.fields@[k] == wide.fields@[i],
        None => forall|n: u32|
            wide.fields@[i].numbers@.contains(n) ==> find_field(narrow.fields@, n) is None,
    } by {
        lemma_well_formed_field(wide, i);
        if keep.contains(i) {
            let k = keep.index_of(i);
            assert(keep[k] == i);
            assert forall|n: u32| narrow.fields@[k].numbers@.contains(n) implies find_field(
                narrow.fields@,
                n,
            ) == Some(k as nat) by {
                assert forall|j: int| 0 <= j < k implies !narrow.fields@[j].numbers@.contains(n) by {
                    lemma_kept_apart(wide, narrow, keep, j, i);
                }
                lemma_find_field_is(narrow.fields@, n, 0, k as nat);
            }
        } else {
            assert forall|n: u32| wide.fields@[i].numbers@.contains(n) implies find_field(
                narrow.fields@,
                n,
            ) is None by {
                assert forall|j: int| 0 <= j < narrow.fields@.len() implies !narrow.fields@[j].numbers@.contains(
                    n,
                ) by {
                    assert(keep.contains(keep[j]));
                    lemma_kept_apart(wide, narrow, keep, j, i);
                }
                lemma_find_field_none(narrow.fields@, n, 0);
            }
        }
    }
    assert forall|i: int, j: int| 0 <= i < j < place.len() && place[i] is Some implies #[trigger] place[i]
        != #[trigger] place[j] by {
        if place[j] is Some {
            assert(keep[keep.index_of(i)] == i);
            assert(keep[keep.index_of(j)] == j);
        }
    }
}

/// What the narrow schema has made of the first `i` fields of the wide
/// message: of the fields that were kept, those among the first `i`.
proof fn lemma_narrow_carried(wide: MessageSchema, narrow: MessageSchema, keep: Seq<int>, m: MessageView, i: nat)
    requires
        narrowed(wide, narrow, keep),
        i <= wide.fields@.len(),
    ensures
        carried(narrow, narrow_place(wide, keep), m, i).fields == Seq::new(
            keep.len(),
            |k: int|
                if keep[k] < i {
                    m.fields[keep[k]]
                } else if 0 <= k < narrow.fields@.len() {
                    initial_field(narrow.fields@[k])
                } else {
                    FieldView::Oneof(None)
                },
        ),
    decreases i,
{
    let place = narrow_place(wide, keep);
    if i > 0 {
        lemma_narrow_carried(wide, narrow, keep, m, (i - 1) as nat);
        if keep.contains(i - 1) {
            assert(keep[keep.index_of(i - 1)] == i - 1);
        } else {
            assert forall|k: int| 0 <= k < keep.len() implies keep[k] != i - 1 by {
                assert(keep.contains(keep[k]));
            }
        }
    }
}

/// What the wide schema has made of the first `i` fields of the narrow
/// message: each in the place it was kept from.
proof fn lemma_wide_carried(wide: MessageSchema, keep: Seq<int>, through: MessageView, i: nat)
    requires
        i <= keep.len(),
        forall|k: int| 0 <= k < keep.len() ==> 0 <= #[trigger] keep[k] < wide.fields@.len(),
        forall|j: int, k: int| 0 <= j < k < keep.len() ==> #[trigger] keep[j] != #[trigger] keep[k],
    ensures
        carried(wide, wide_place(keep), through, i).fields == Seq::new(
            wide.fields@.len(),
            |h: int|
                if keep.take(i as int).contains(h) {
                    through.fields[keep.index_of(h)]
                } else if 0 <= h < wide.fields@.len() {
                    initial_field(wide.fields@[h])
                } else {
                    FieldView::Oneof(None)
                },
        ),
    decreases i,
{
    if i > 0 {
        lemma_wide_carried(wide, keep, through, (i - 1) as nat);
        let before = keep.take(i - 1);
        let now = keep.take(i as int);
        let target = keep[i - 1];
        assert(now[i - 1] == target);
        assert(keep.contains(target));
        let first = keep.index_of(target);
        assert(keep[first] == target);
        assert(first == i - 1);
        assert forall|h: int| now.contains(h) <==> (before.contains(h) || h == target) by {
            if now.contains(h) {
                let k = choose|k: int| 0 <= k < now.len() && now[k] == h;
                if k < i - 1 {
                    assert(before[k] == h);
                }
            }
            if before.contains(h) {
                let k = choose|k: int| 0 <= k < before.len() && before[k] == h;
                assert(now[k] == h);
            }
        }
        assert(!before.contains(target)) by {
            if before.contains(target) {
                let k = choose|k: int| 0 <= k < before.len() && before[k] == target;
                assert(keep[k] == keep[i - 1]);
            }
        }
    } else {
        assert(keep.take(0).len() == 0);
    }
}

/// A reader that lacks fields can stand between two that have them: what
/// a well-formed schema writes of a message, a schema without some of its
/// fields reads as the fields it has; and what that schema writes of them,
/// the first schema reads as the message it wrote, but for the fields that
/// the other lacked, which are as they are at first.
pub proof fn law_unknown_fields_tolerated(
    wide: MessageSchema,
    narrow: MessageSchema,
    keep: Seq<int>,
    m: MessageView,
)
    requires
        well_formed(wide),
        fits(wide, m),
        narrowed(wide, narrow, keep),
    ensures
        parse_message(narrow, message_encoding(wide, m)) == Ok::<MessageView, DecodeError>(kept(m, keep)),
        parse_message(wide, message_encoding(narrow, kept(m, keep))) == Ok::<MessageView, DecodeError>(
            restored(wide, m, keep),
        ),
{
    let through = kept(m, keep);
    // there
    lemma_narrow_placed(wide, narrow, keep);
    law_read_across(wide, narrow, narrow_place(wide, keep), m, 0);
    lemma_narrow_carried(wide, narrow, keep, m, wide.fields@.len());
    assert(carried(narrow, narrow_place(wide, keep), m, wide.fields@.len()).fields == through.fields);
    // and back
    lemma_narrowed_well_formed(wide, narrow, keep, m);
    let place = wide_place(keep);
    assert forall|k: int| 0 <= k < place.len() implies match #[trigger] place[k] {
        Some(h) => found_at(wide, h) && wide.fields@[h] == narrow.fields@[k],
        None => forall|n: u32|
            narrow.fields@[k].numbers@.contains(n) ==> find_field(wide.fields@, n) is None,
    } by {
        lemma_well_formed_found(wide, keep[k]);
    }
    law_read_across(narrow, wide, place, through, 0);
    lemma_wide_carried(wide, keep, through, keep.len());
    assert(keep.take(keep.len() as int) == keep);
    assert forall|h: int| 0 <= h < wide.fields@.len() implies carried(
        wide,
        place,
        through,
        keep.len(),
    ).fields[h] == restored(wide, m, keep).fields[h] by {
        if keep.contains(h) {
            assert(keep[keep.index_of(h)] == h);
        }
    }
    assert(carried(wide, place, through, keep.len()).fields == restored(wide, m, keep).fields);
}

} // verus!
