//! What is read is of the kind that was asked for: a message that was
//! read has the shape of its schema, every value in it is of the type of
//! its field, and no text, no run of bytes and no list in it is longer than
//! its field allows.

use vstd::prelude::*;
use crate::codec::{
    field_fits, field_typed, fits, initial_message, items_of, parse_field_at, parse_fields,
    parse_message, parse_nested, parse_repeated, parse_run, parse_value_of, parse_variant_at,
    payload_typed, typed, value_typed,
};
use crate::message::{parse_scalar, MessageView, ValueView};
use crate::schema::{FieldDescriptor, FieldKind, MessageSchema, ScalarType, Variant, VariantKind};

verus! {

/// A scalar that was read is of the type that was asked for, and within
/// the capacity that was given.
pub proof fn law_scalar_read_is_typed(ty: ScalarType, capacity: nat, field_name: &'static str, s: Seq<u8>)
    ensures
        parse_scalar(ty, capacity, field_name, s).result matches Ok(value) ==> value_typed(
            value,
            ty,
            capacity,
        ),
{
    reveal(parse_scalar);
    crate::wire::lemma_parse_varint_within(s);
    let p = crate::wire::parse_bytes(s, capacity, field_name);
    if p.result is Ok {
        let payload = p.result->Ok_0;
        if vstd::utf8::valid_utf8(payload) {
            vstd::utf8::decode_utf8_encode_utf8(payload);
        }
    }
}

/// The message that nothing was read into is of the kind of its schema.
pub proof fn law_initial_message_is_typed(schema: MessageSchema)
    ensures
        typed(schema, initial_message(schema)),
    decreases schema,
{
    let m = initial_message(schema);
    assert forall|i: int| 0 <= i < schema.fields@.len() implies field_typed(
        #[trigger] schema.fields@[i],
        m.fields[i],
    ) by {
        match schema.fields@[i].kind {
            FieldKind::Message(sub) => {
                law_initial_message_is_typed(sub);
            },
            _ => {},
        }
    }
}

/// The items of a packed run that was read are of the type of the list,
/// and no more than the list may hold, when those that the list held
/// before were.
pub proof fn lemma_run_read_is_typed(
    ty: ScalarType,
    capacity: nat,
    field_name: &'static str,
    max_count: nat,
    items: Seq<ValueView>,
    s: Seq<u8>,
)
    requires
        items.len() <= max_count,
        forall|j: int| 0 <= j < items.len() ==> value_typed(#[trigger] items[j], ty, capacity),
    ensures
        parse_run(ty, capacity, field_name, max_count, items, s) matches Ok(all) ==> all.len() <= max_count
            && forall|j: int| 0 <= j < all.len() ==> value_typed(#[trigger] all[j], ty, capacity),
    decreases s.len(),
{
    let v = parse_scalar(ty, capacity, field_name, s);
    law_scalar_read_is_typed(ty, capacity, field_name, s);
    if v.result is Ok && items.len() < max_count && 0 < v.consumed <= s.len() {
        lemma_run_read_is_typed(
            ty,
            capacity,
            field_name,
            max_count,
            items.push(v.result->Ok_0),
            s.skip(v.consumed as int),
        );
    }
}

/// The items of a repeated field after one occurrence was read are of
/// the type of the list, and no more than the list may hold, when those
/// that the list held before were.
pub proof fn lemma_repeated_read_is_typed(
    ty: ScalarType,
    capacity: nat,
    field_name: &'static str,
    max_count: nat,
    items: Seq<ValueView>,
    wire_type: u8,
    s: Seq<u8>,
)
    requires
        items.len() <= max_count,
        forall|j: int| 0 <= j < items.len() ==> value_typed(#[trigger] items[j], ty, capacity),
    ensures
        parse_repeated(ty, capacity, field_name, max_count, items, wire_type, s) matches Ok((all, _))
            ==> all.len() <= max_count && forall|j: int|
            0 <= j < all.len() ==> value_typed(#[trigger] all[j], ty, capacity),
{
    law_scalar_read_is_typed(ty, capacity, field_name, s);
    if wire_type == 2 && ty.packable() {
        let l = crate::wire::parse_varint_u32(s);
        if l.result is Ok {
            let run = crate::iterators::window(s.skip(l.consumed as int), l.result->Ok_0 as nat);
            lemma_run_read_is_typed(ty, capacity, field_name, max_count, items, run);
        }
    }
}

/// An embedded message that was read is of the kind of its schema.
pub proof fn lemma_nested_read_is_typed(sub: MessageSchema, s: Seq<u8>)
    ensures
        parse_nested(sub, s) matches Ok((m, _)) ==> typed(sub, m),
    decreases sub, 2nat, 0nat,
{
    let l = crate::wire::parse_varint_u32(s);
    if l.result is Ok {
        let payload = crate::iterators::window(s.skip(l.consumed as int), l.result->Ok_0 as nat);
        law_initial_message_is_typed(sub);
        lemma_fields_read_are_typed(sub, initial_message(sub), payload);
    }
}

/// The variant that was read is one of the variants, and what it carries
/// is of its kind.
pub proof fn lemma_variant_read_is_typed(variants: Vec<Variant>, j: nat, number: u32, s: Seq<u8>)
    ensures
        parse_variant_at(variants, j, number, s) matches Ok((c, _)) ==> c.variant < variants@.len()
            && payload_typed(variants@[c.variant as int], c.payload),
    decreases variants, 0nat, variants@.len() - j,
{
    if j < variants@.len() {
        if variants@[j as int].numbers@.contains(number) {
            let v = variants@[j as int];
            match v.kind {
                VariantKind::Scalar(ty) => {
                    law_scalar_read_is_typed(ty, v.capacity as nat, v.name, s);
                },
                VariantKind::Message(sub) => {
                    lemma_nested_read_is_typed(sub, s);
                },
            }
        } else {
            lemma_variant_read_is_typed(variants, j + 1, number, s);
        }
    }
}

/// What a field holds after a value was read into it is of the kind of
/// the field, when what it held before was.
pub proof fn lemma_value_read_is_typed(
    d: FieldDescriptor,
    acc: MessageView,
    i: int,
    number: u32,
    wire_type: u8,
    s: Seq<u8>,
)
    requires
        0 <= i < acc.fields.len(),
        field_typed(d, acc.fields[i]),
    ensures
        parse_value_of(d, acc, i, number, wire_type, s) matches Ok((slot, _)) ==> field_typed(d, slot),
    decreases d, 0nat, 0nat,
{
    match d.kind {
        FieldKind::Scalar(ty) => {
            law_scalar_read_is_typed(ty, d.capacity as nat, d.name, s);
            if d.repeated {
                lemma_repeated_read_is_typed(
                    ty,
                    d.capacity as nat,
                    d.name,
                    d.max_count as nat,
                    items_of(acc, i),
                    wire_type,
                    s,
                );
            }
        },
        FieldKind::Oneof(variants) => {
            lemma_variant_read_is_typed(variants, 0, number, s);
        },
        FieldKind::Message(sub) => {
            lemma_nested_read_is_typed(sub, s);
        },
    }
}

/// The message after the value that follows a tag was read is of the kind
/// of the schema, when the message before was.
pub proof fn lemma_field_read_is_typed(
    schema: MessageSchema,
    i: nat,
    acc: MessageView,
    number: u32,
    wire_type: u8,
    s: Seq<u8>,
)
    requires
        typed(schema, acc),
    ensures
        parse_field_at(schema, i, acc, number, wire_type, s) matches Ok((next, _)) ==> typed(schema, next),
    decreases schema, 0nat, schema.fields@.len() - i,
{
    if i >= schema.fields@.len() {
    } else if schema.fields@[i as int].numbers@.contains(number) {
        let d = schema.fields@[i as int];
        assert(field_typed(d, acc.fields[i as int]));
        lemma_value_read_is_typed(d, acc, i as int, number, wire_type, s);
        match parse_value_of(d, acc, i as int, number, wire_type, s) {
            Ok((slot, _)) => {
                let next = MessageView { fields: acc.fields.update(i as int, slot) };
                assert forall|k: int| 0 <= k < schema.fields@.len() implies field_typed(
                    #[trigger] schema.fields@[k],
                    next.fields[k],
                ) by {
                    if k != i {
                        assert(field_typed(schema.fields@[k], acc.fields[k]));
                    }
                }
            },
            Err(_) => {},
        }
    } else {
        lemma_field_read_is_typed(schema, i + 1, acc, number, wire_type, s);
    }
}

/// The message that the rest of the bytes complete is of the kind of the
/// schema, when what was read so far is.
pub proof fn lemma_fields_read_are_typed(schema: MessageSchema, acc: MessageView, s: Seq<u8>)
    requires
        typed(schema, acc),
    ensures
        parse_fields(schema, acc, s) matches Ok(m) ==> typed(schema, m),
    decreases schema, 1nat, s.len(),
{
    let t = crate::wire::parse_tag(s);
    match t.result {
        Ok((number, wire_type)) => {
            if 0 < t.consumed <= s.len() {
                let rest = s.skip(t.consumed as int);
                lemma_field_read_is_typed(schema, 0, acc, number, wire_type, rest);
                match parse_field_at(schema, 0, acc, number, wire_type, rest) {
                    Ok((next, taken)) => {
                        if taken <= rest.len() {
                            lemma_fields_read_are_typed(schema, next, rest.skip(taken as int));
                        }
                    },
                    Err(_) => {},
                }
            }
        },
        Err(_) => {},
    }
}

/// A message that was read is of the kind of its schema: it has the shape
/// of the schema, every value in it is of the type of its field, and no
/// text, no run of bytes and no list in it is longer than its field
/// allows.
pub proof fn law_message_read_is_typed(schema: MessageSchema, s: Seq<u8>)
    ensures
        parse_message(schema, s) matches Ok(m) ==> typed(schema, m),
{
    law_initial_message_is_typed(schema);
    lemma_fields_read_are_typed(schema, initial_message(schema), s);
}

/// A message that a schema can hold and send is of the kind of the
/// schema.
pub proof fn law_fitting_message_is_typed(schema: MessageSchema, m: MessageView)
    requires
        fits(schema, m),
    ensures
        typed(schema, m),
    decreases schema,
{
    assert forall|i: int| 0 <= i < schema.fields@.len() implies field_typed(
        #[trigger] schema.fields@[i],
        m.fields[i],
    ) by {
        let d = schema.fields@[i];
        assert(field_fits(d, m.fields[i]));
        match (d.kind, m.fields[i]) {
            (FieldKind::Oneof(variants), crate::message::FieldView::Oneof(Some(c))) => {
                match (variants@[c.variant as int].kind, c.payload) {
                    (VariantKind::Message(sub), crate::message::PayloadView::Message(inner)) => {
                        law_fitting_message_is_typed(sub, inner);
                    },
                    _ => {},
                }
            },
            (FieldKind::Message(sub), crate::message::FieldView::Message(inner)) => {
                law_fitting_message_is_typed(sub, inner);
            },
            _ => {},
        }
    }
}

} // verus!
