//! The message engine: reads and writes whole messages as their schema
//! directs.

use vstd::prelude::*;
use crate::codec::{
    chosen_encoding, field_encoding, fields_encoding, initial_field, initial_message,
    items_encoding, items_of, lemma_parse_field_found, lemma_parse_variant_found,
    message_encoding, nested_encoding, parse_field_at, parse_fields, parse_message, parse_nested,
    parse_repeated, parse_run, parse_value_of, parse_variant_at,
};
use crate::decoder;
use crate::decoder::DecodeError;
use crate::iterators::{
    lemma_moved_advanced, lemma_moved_remaining, lemma_moved_then, moved, window, LimitedIterator,
};
use crate::message::{
    parse_scalar, values_view, Chosen, FieldValue, FieldView, Message, MessageView, Payload, Value,
    ValueView,
};
use crate::schema::{
    lemma_find_field_from, lemma_find_variant_from, variant_for, FieldDescriptor, FieldKind,
    MessageSchema, ScalarType, Variant, VariantKind,
};
use crate::encoder;
use crate::iterators::NullCounterBuffer;
use crate::schema::{sendable, variants_sendable};
use crate::traits::{
    advanced, delivers, emits, lemma_advanced_remaining, lemma_delivered_then,
    lemma_offered_delivered, lemma_offered_then, state_of, Reader, Writer, WriterError,
};
use crate::wire::{parse_tag, parse_unknown, parse_varint_u32, tag_encoding, varint_encoding};
use crate::wiretypes::wire_types;

verus! {

impl Message {
    /// A message of `schema` that nothing was read into.
    pub fn initial(schema: &MessageSchema) -> (m: Message)
        ensures
            m@ == initial_message(*schema),
            m.fields@.len() == schema.fields@.len(),
        decreases schema,
    {
        let mut fields: Vec<FieldValue> = Vec::new();
        let mut i: usize = 0;
        while i < schema.fields.len()
            invariant
                i <= schema.fields.len(),
                fields@.len() == i,
                forall|j: int| 0 <= j < i ==> (#[trigger] fields@[j])@ == initial_field(schema.fields@[j]),
            decreases schema.fields.len() - i,
        {
            let d = &schema.fields[i];
            let slot = match &d.kind {
                FieldKind::Scalar(ty) => if d.repeated {
                    let items: Vec<Value> = Vec::new();
                    assert(values_view(items@) == Seq::<ValueView>::empty());
                    FieldValue::Repeated(items)
                } else {
                    FieldValue::Scalar(Value::initial(*ty))
                },
                FieldKind::Oneof(_) => FieldValue::Oneof(None),
                FieldKind::Message(sub) => FieldValue::Message(Message::initial(sub)),
            };
            fields.push(slot);
            i += 1;
        }
        let m = Message { fields };
        assert(m@.fields == initial_message(*schema).fields);
        m
    }

    /// Puts `slot` in the place of the field at index `i`.
    fn put(&mut self, i: usize, slot: FieldValue)
        requires
            i < old(self).fields@.len(),
        ensures
            (*final(self))@ == (MessageView { fields: (*old(self))@.fields.update(i as int, slot@) }),
            final(self).fields@.len() == old(self).fields@.len(),
    {
        self.fields.set(i, slot);
        assert((*self)@.fields == (*old(self))@.fields.update(i as int, slot@));
    }

    /// Takes the items out of the field at index `i`, which holds nothing
    /// that matters until something is put there again.
    fn take_items(&mut self, i: usize) -> (items: Vec<Value>)
        requires
            i < old(self).fields@.len(),
        ensures
            values_view(items@) == items_of((*old(self))@, i as int),
            final(self).fields@.len() == old(self).fields@.len(),
            forall|j: int|
                0 <= j < old(self).fields@.len() && j != i ==> final(self).fields@[j] == old(self).fields@[j],
    {
        let mut slot = FieldValue::Oneof(None);
        self.fields.set_and_swap(i, &mut slot);
        match slot {
            FieldValue::Repeated(items) => items,
            _ => {
                let items: Vec<Value> = Vec::new();
                assert(values_view(items@) == Seq::<ValueView>::empty());
                items
            },
        }
    }
}

/// Reads values of one scalar type from `source` until nothing is left of
/// it, and appends them to `items`, which may hold `max_count` at most.
fn decode_run<R: Reader>(
    ty: ScalarType,
    capacity: usize,
    field_name: &'static str,
    max_count: usize,
    items: &mut Vec<Value>,
    source: &mut R,
) -> (r: Result<(), DecodeError>)
    ensures
        match parse_run(
            ty,
            capacity as nat,
            field_name,
            max_count as nat,
            values_view(old(items)@),
            old(source).remaining(),
        ) {
            Ok(all) => r is Ok && values_view(final(items)@) == all && *final(source) == advanced(
                *old(source),
                old(source).remaining().len(),
            ),
            Err(e) => r == Err::<(), DecodeError>(e),
        },
{
    let ghost s0 = source.remaining();
    let ghost mut taken: nat = 0;
    proof {
        lemma_advanced_remaining(*source, 0);
    }
    loop
        invariant
            s0 == old(source).remaining(),
            taken <= s0.len(),
            *source == advanced(*old(source), taken),
            source.remaining() == s0.skip(taken as int),
            parse_run(
                ty,
                capacity as nat,
                field_name,
                max_count as nat,
                values_view(old(items)@),
                s0,
            ) == parse_run(
                ty,
                capacity as nat,
                field_name,
                max_count as nat,
                values_view(items@),
                source.remaining(),
            ),
        decreases source.remaining().len(),
    {
        let ghost before = source.remaining();
        let ghost held = values_view(items@);
        match Value::decode(ty, capacity, field_name, source) {
            Ok(value) => {
                if items.len() >= max_count {
                    return Err(DecodeError::UnexpectedEndOfBuffer);
                }
                proof {
                    let n = parse_scalar(ty, capacity as nat, field_name, before).consumed;
                    crate::laws::lemma_parse_scalar_within(ty, capacity as nat, field_name, before);
                    crate::traits::lemma_advanced_add(*old(source), taken, n);
                    assert(s0.skip(taken as int).skip(n as int) == s0.skip((taken + n) as int));
                    taken = taken + n;
                }
                items.push(value);
                assert(values_view(items@) == held.push(value@));
            },
            Err(DecodeError::EmptyBuffer) => {
                proof {
                    crate::laws::lemma_parse_scalar_empty(ty, capacity as nat, field_name, before);
                    lemma_advanced_remaining(*old(source), taken);
                    lemma_advanced_remaining(*old(source), s0.len());
                }
                return Ok(());
            },
            Err(e) => {
                return Err(e);
            },
        }
    }
}

/// Reads one occurrence of a repeated field into `items`: a packed run
/// when the occurrence is length-delimited and the type can be packed, a
/// single value otherwise.
fn decode_repeated<R: Reader>(
    ty: ScalarType,
    capacity: usize,
    field_name: &'static str,
    max_count: usize,
    items: &mut Vec<Value>,
    wire_type: u8,
    view: &mut LimitedIterator<R>,
) -> (r: Result<(), DecodeError>)
    ensures
        match parse_repeated(
            ty,
            capacity as nat,
            field_name,
            max_count as nat,
            values_view(old(items)@),
            wire_type,
            old(view).remaining(),
        ) {
            Ok((all, taken)) => r is Ok && values_view(final(items)@) == all && moved(
                *old(view),
                *final(view),
                taken,
            ),
            Err(e) => r == Err::<(), DecodeError>(e),
        },
{
    let ghost s = view.remaining();
    let ghost held = values_view(items@);
    if wire_type == wire_types::LENGTHDELIMITED && ty.is_packable() {
        let len = match decoder::leb128_u32(view) {
            Ok(len) => len,
            Err(e) => {
                return Err(e);
            },
        };
        let ghost head = parse_varint_u32(s).consumed;
        let ghost v1 = *view;
        proof {
            lemma_moved_advanced(*old(view), head);
        }
        let outer = view.enter(len);
        let ghost v2 = *view;
        let ghost run = window(s.skip(head as int), len as nat);
        assert(view.remaining() == run);
        match decode_run(ty, capacity, field_name, max_count, items, view) {
            Ok(()) => {
                proof {
                    lemma_moved_advanced(v2, run.len());
                    v2.lemma_budget_bound();
                    v1.lemma_budget_bound();
                }
                view.leave(outer);
                proof {
                    assert(moved(v1, *view, run.len()));
                    lemma_moved_then(*old(view), v1, *view, head, run.len());
                }
                Ok(())
            },
            Err(e) => Err(e),
        }
    } else {
        match Value::decode(ty, capacity, field_name, view) {
            Ok(value) => {
                if items.len() >= max_count {
                    return Err(DecodeError::UnexpectedEndOfBuffer);
                }
                items.push(value);
                proof {
                    assert(values_view(items@) == held.push(value@));
                    lemma_moved_advanced(
                        *old(view),
                        parse_scalar(ty, capacity as nat, field_name, s).consumed,
                    );
                }
                Ok(())
            },
            Err(e) => Err(e),
        }
    }
}

/// Reads an embedded message of the schema `sub`: its length, and then
/// the message from a view of as many bytes as the length says.
fn decode_nested<R: Reader>(sub: &MessageSchema, view: &mut LimitedIterator<R>) -> (r: Result<
    Message,
    DecodeError,
>)
    ensures
        match parse_nested(*sub, old(view).remaining()) {
            Ok((m, taken)) => r matches Ok(v) && v@ == m && moved(*old(view), *final(view), taken),
            Err(e) => r matches Err(f) && f == e,
        },
    decreases sub, 2nat,
{
    let ghost s = view.remaining();
    let len = match decoder::leb128_u32(view) {
        Ok(len) => len,
        Err(e) => {
            return Err(e);
        },
    };
    let ghost head = parse_varint_u32(s).consumed;
    let ghost v1 = *view;
    proof {
        lemma_moved_advanced(*old(view), head);
    }
    // The view is narrowed to the payload. Reading the message runs it dry,
    // which leaves the source at the first byte after the payload.
    let outer = view.enter(len);
    let ghost v2 = *view;
    let ghost payload = window(s.skip(head as int), len as nat);
    assert(view.remaining() == payload);
    match decode_from(sub, view) {
        Ok(m) => {
            proof {
                v2.lemma_budget_bound();
                v1.lemma_budget_bound();
            }
            view.leave(outer);
            proof {
                assert(moved(v1, *view, payload.len()));
                lemma_moved_then(*old(view), v1, *view, head, payload.len());
            }
            Ok(m)
        },
        Err(e) => Err(e),
    }
}

/// Reads the value of the variant of a oneof that `number` selects.
fn decode_variant<R: Reader>(variants: &Vec<Variant>, number: u32, view: &mut LimitedIterator<R>) -> (r:
    Result<Chosen, DecodeError>)
    ensures
        match parse_variant_at(*variants, 0, number, old(view).remaining()) {
            Ok((c, taken)) => r matches Ok(v) && v@ == c && moved(*old(view), *final(view), taken),
            Err(e) => r matches Err(f) && f == e,
        },
    decreases variants, 0nat,
{
    let ghost s = view.remaining();
    proof {
        lemma_parse_variant_found(*variants, 0, number, s);
        lemma_find_variant_from(variants@, number, 0);
    }
    let j = match variant_for(variants, number) {
        Some(j) => j,
        None => {
            return Err(DecodeError::UnexpectedEndOfBuffer);
        },
    };
    let v = &variants[j];
    match &v.kind {
        VariantKind::Scalar(ty) => match Value::decode(*ty, v.capacity, v.name, view) {
            Ok(value) => {
                proof {
                    lemma_moved_advanced(
                        *old(view),
                        parse_scalar(*ty, v.capacity as nat, v.name, s).consumed,
                    );
                }
                Ok(Chosen { variant: j, payload: Payload::Scalar(value) })
            },
            Err(e) => Err(e),
        },
        VariantKind::Message(sub) => match decode_nested(sub, view) {
            Ok(m) => Ok(Chosen { variant: j, payload: Payload::Message(m) }),
            Err(e) => Err(e),
        },
    }
}

/// Reads the value that follows a tag into the field of `result` that
/// answers to the number of the tag, or passes over it when none does.
fn decode_field<R: Reader>(
    schema: &MessageSchema,
    result: &mut Message,
    number: u32,
    wire_type: u8,
    view: &mut LimitedIterator<R>,
) -> (r: Result<(), DecodeError>)
    requires
        old(result).fields@.len() == schema.fields@.len(),
    ensures
        match parse_field_at(*schema, 0, (*old(result))@, number, wire_type, old(view).remaining()) {
            Ok((next, taken)) => r is Ok && (*final(result))@ == next && final(result).fields@.len()
                == schema.fields@.len() && moved(*old(view), *final(view), taken),
            Err(e) => r == Err::<(), DecodeError>(e),
        },
    decreases schema, 0nat,
{
    let ghost s = view.remaining();
    let ghost acc = (*result)@;
    proof {
        lemma_parse_field_found(*schema, 0, acc, number, wire_type, s);
        lemma_find_field_from(schema.fields@, number, 0);
    }
    let i = match schema.field_for(number) {
        Some(i) => i,
        None => {
            return match decoder::unknown(view, wire_type) {
                Ok(()) => {
                    proof {
                        lemma_moved_advanced(*old(view), parse_unknown(s, wire_type).consumed);
                    }
                    Ok(())
                },
                Err(e) => Err(e),
            };
        },
    };
    let d = &schema.fields[i];
    // The field at `i` is the first that answers, so the value is its value.
    assert(parse_field_at(*schema, 0, acc, number, wire_type, s) == match parse_value_of(
        schema.fields@[i as int],
        acc,
        i as int,
        number,
        wire_type,
        s,
    ) {
        Ok((slot, taken)) => Ok((MessageView { fields: acc.fields.update(i as int, slot) }, taken)),
        Err(e) => Err(e),
    }) by {
        assert(parse_field_at(*schema, 0, acc, number, wire_type, s) == parse_field_at(
            *schema,
            i as nat,
            acc,
            number,
            wire_type,
            s,
        ));
    }
    match &d.kind {
        FieldKind::Scalar(ty) => {
            if d.repeated {
                let mut items = result.take_items(i);
                match decode_repeated(*ty, d.capacity, d.name, d.max_count, &mut items, wire_type, view) {
                    Ok(()) => {
                        result.put(i, FieldValue::Repeated(items));
                        assert((*result)@.fields == acc.fields.update(
                            i as int,
                            FieldView::Repeated(values_view(items@)),
                        ));
                        Ok(())
                    },
                    Err(e) => Err(e),
                }
            } else {
                match Value::decode(*ty, d.capacity, d.name, view) {
                    Ok(value) => {
                        proof {
                            lemma_moved_advanced(
                                *old(view),
                                parse_scalar(*ty, d.capacity as nat, d.name, s).consumed,
                            );
                        }
                        result.put(i, FieldValue::Scalar(value));
                        Ok(())
                    },
                    Err(e) => Err(e),
                }
            }
        },
        FieldKind::Oneof(variants) => match decode_variant(variants, number, view) {
            Ok(chosen) => {
                result.put(i, FieldValue::Oneof(Some(chosen)));
                Ok(())
            },
            Err(e) => Err(e),
        },
        FieldKind::Message(sub) => match decode_nested(sub, view) {
            Ok(m) => {
                result.put(i, FieldValue::Message(m));
                Ok(())
            },
            Err(e) => Err(e),
        },
    }
}

/// Reads a message of `schema` from a bounded view, to the end of the
/// view.
///
/// The message is complete when nothing is left where a tag would start.
/// Every other way of running out, and every value that cannot be read,
/// fails the whole message; nothing is then said of how far the view was
/// read.
pub fn decode_from<R: Reader>(schema: &MessageSchema, view: &mut LimitedIterator<R>) -> (r: Result<
    Message,
    DecodeError,
>)
    ensures
        match parse_message(*schema, old(view).remaining()) {
            Ok(m) => r matches Ok(v) && v@ == m && v.fields@.len() == schema.fields@.len() && moved(
                *old(view),
                *final(view),
                old(view).remaining().len(),
            ),
            Err(e) => r matches Err(f) && f == e,
        },
    decreases schema, 1nat,
{
    let ghost s0 = view.remaining();
    let ghost mut taken: nat = 0;
    let mut result = Message::initial(schema);
    proof {
        lemma_moved_advanced(*old(view), 0);
        assert(s0.skip(0) == s0);
    }
    loop
        invariant
            s0 == old(view).remaining(),
            result.fields@.len() == schema.fields@.len(),
            taken <= s0.len(),
            moved(*old(view), *view, taken),
            view.remaining() == s0.skip(taken as int),
            parse_message(*schema, s0) == parse_fields(*schema, result@, view.remaining()),
        decreases view.remaining().len(),
    {
        let ghost here = *view;
        let ghost s = view.remaining();
        match decoder::tag(view) {
            Ok((field_number, wire_type)) => {
                let ghost head = parse_tag(s).consumed;
                let ghost after_tag = *view;
                let ghost acc = result@;
                proof {
                    crate::laws::lemma_parse_tag_within(s);
                    lemma_moved_advanced(here, head);
                }
                match decode_field(schema, &mut result, field_number, wire_type, view) {
                    Ok(()) => {
                        proof {
                            let rest = s.skip(head as int);
                            let body = parse_field_at(
                                *schema,
                                0,
                                acc,
                                field_number,
                                wire_type,
                                rest,
                            );
                            let used = body->Ok_0.1;
                            lemma_moved_then(here, after_tag, *view, head, used);
                            lemma_moved_then(*old(view), here, *view, taken, head + used);
                            lemma_moved_remaining(*old(view), *view, taken + head + used);
                            assert(rest.skip(used as int) == s0.skip((taken + head + used) as int));
                            taken = taken + head + used;
                        }
                    },
                    Err(e) => {
                        return Err(e);
                    },
                }
            },
            Err(DecodeError::EmptyBuffer) => {
                proof {
                    crate::laws::lemma_parse_tag_empty(s);
                }
                return Ok(result);
            },
            Err(e) => {
                return Err(e);
            },
        }
    }
}

/// Reads a message of `schema` from all of `bytes`.
pub fn decode(schema: &MessageSchema, bytes: &[u8]) -> (r: Result<Message, DecodeError>)
    ensures
        match parse_message(*schema, bytes@) {
            Ok(m) => r matches Ok(v) && v@ == m && v.fields@.len() == schema.fields@.len(),
            Err(e) => r matches Err(f) && f == e,
        },
{
    let mut view = LimitedIterator::over(bytes);
    decode_from(schema, &mut view)
}

/// Writes one scalar value under the tag of its field.
fn encode_tagged<W: Writer>(number: u32, ty: ScalarType, value: &Value, sink: &mut W) -> (r: Result<
    usize,
    WriterError,
>)
    requires
        number < 0x2000_0000,
    ensures
        emits(*old(sink), *final(sink), r, tag_encoding(number, ty.wire_type()) + value@.encoding()),
{
    let ghost s0 = state_of(*sink);
    let head = encoder::tag(sink, &number, &ty.wire());
    let ghost s1 = state_of(*sink);
    match head {
        Ok(n) => {
            let body = value.encode(sink);
            proof {
                lemma_offered_then(
                    s0,
                    s1,
                    state_of(*sink),
                    head,
                    body,
                    tag_encoding(number, ty.wire_type()),
                    value@.encoding(),
                );
            }
            match body {
                Ok(m) => Ok(n + m),
                Err(e) => Err(e),
            }
        },
        Err(e) => {
            proof {
                lemma_offered_then(
                    s0,
                    s1,
                    s1,
                    head,
                    head,
                    tag_encoding(number, ty.wire_type()),
                    value@.encoding(),
                );
            }
            Err(e)
        },
    }
}

/// Writes the items of a repeated field, each under a tag of its own.
fn encode_items<W: Writer>(number: u32, ty: ScalarType, items: &Vec<Value>, sink: &mut W) -> (r: Result<
    usize,
    WriterError,
>)
    requires
        number < 0x2000_0000,
    ensures
        emits(*old(sink), *final(sink), r, items_encoding(number, ty, values_view(items@), 0)),
{
    let ghost all = items_encoding(number, ty, values_view(items@), 0);
    let ghost mut done: Seq<u8> = Seq::empty();
    let mut bytes_written: usize = 0;
    let mut j: usize = 0;
    assert(done + all == all);
    while j < items.len()
        invariant
            j <= items.len(),
            number < 0x2000_0000,
            all == items_encoding(number, ty, values_view(items@), 0),
            emits(*old(sink), *sink, Ok(bytes_written), done),
            done + items_encoding(number, ty, values_view(items@), j as nat) == all,
        decreases items.len() - j,
    {
        let ghost one = tag_encoding(number, ty.wire_type()) + items@[j as int]@.encoding();
        let ghost rest = items_encoding(number, ty, values_view(items@), (j + 1) as nat);
        assert(items_encoding(number, ty, values_view(items@), j as nat) == one + rest);
        assert(done + (one + rest) == done + one + rest);
        let ghost s1 = state_of(*sink);
        let step = encode_tagged(number, ty, &items[j], sink);
        proof {
            lemma_offered_then(
                state_of(*old(sink)),
                s1,
                state_of(*sink),
                Ok(bytes_written),
                step,
                done,
                one,
            );
        }
        match step {
            Ok(n) => {
                bytes_written += n;
            },
            Err(e) => {
                proof {
                    lemma_offered_then(
                        state_of(*old(sink)),
                        state_of(*sink),
                        state_of(*sink),
                        step,
                        step,
                        done + one,
                        rest,
                    );
                }
                return Err(e);
            },
        }
        proof {
            done = done + one;
        }
        j += 1;
    }
    assert(done + Seq::<u8>::empty() == done);
    Ok(bytes_written)
}

/// Writes an embedded message under the tag of its field.
///
/// The message is written twice: first to a sink that only counts, which
/// gives the length that has to stand in front of it, and then for good.
fn encode_nested<W: Writer>(number: u32, sub: &MessageSchema, m: &Message, sink: &mut W) -> (r: Result<
    usize,
    WriterError,
>)
    requires
        number < 0x2000_0000,
        sendable(*sub),
    ensures
        delivers(*old(sink), *final(sink), r, nested_encoding(number, *sub, m@)),
    decreases sub, 2nat,
{
    let ghost payload = message_encoding(*sub, m@);
    let ghost head = tag_encoding(number, 2);
    let ghost size = varint_encoding(payload.len());
    let ghost s0 = state_of(*sink);
    assert(nested_encoding(number, *sub, m@) == head + (size + payload));
    let mut nullbuffer = NullCounterBuffer::new();
    let len = match encode(sub, m, &mut nullbuffer) {
        Ok(len) => len,
        Err(e) => {
            assert(s0.written.take(s0.written.len() as int) == s0.written);
            return Err(e);
        },
    };
    let first = encoder::tag(sink, &number, &wire_types::LENGTHDELIMITED);
    let ghost s1 = state_of(*sink);
    proof {
        lemma_offered_delivered(s0, s1, first, head);
    }
    let a = match first {
        Ok(a) => a,
        Err(e) => {
            proof {
                lemma_delivered_then(s0, s1, s1, first, first, head, size + payload);
            }
            return Err(e);
        },
    };
    let second = encoder::leb128(sink, &(len as u64));
    let ghost s2 = state_of(*sink);
    proof {
        lemma_offered_delivered(s1, s2, second, size);
    }
    let b = match second {
        Ok(b) => b,
        Err(e) => {
            proof {
                lemma_delivered_then(s1, s2, s2, second, second, size, payload);
                lemma_delivered_then(s0, s1, s2, first, second, head, size + payload);
            }
            return Err(e);
        },
    };
    let third = encode(sub, m, sink);
    proof {
        let s3 = state_of(*sink);
        lemma_delivered_then(s1, s2, s3, second, third, size, payload);
        let tail: Result<usize, WriterError> = match third {
            Ok(c) => Ok((b + c) as usize),
            Err(e) => Err(e),
        };
        lemma_delivered_then(s0, s1, s3, first, tail, head, size + payload);
    }
    match third {
        Ok(c) => Ok(a + b + c),
        Err(e) => Err(e),
    }
}

/// Writes the variant that a oneof holds, under the first field number of
/// the variant.
fn encode_chosen<W: Writer>(variants: &Vec<Variant>, c: &Chosen, sink: &mut W) -> (r: Result<
    usize,
    WriterError,
>)
    requires
        variants_sendable(*variants),
    ensures
        delivers(*old(sink), *final(sink), r, chosen_encoding(*variants, c@)),
    decreases variants, 0nat,
{
    let ghost s0 = state_of(*sink);
    assert((s0.written + Seq::<u8>::empty()) == s0.written);
    if c.variant >= variants.len() {
        return Ok(0);
    }
    let v = &variants[c.variant];
    assert(crate::schema::leads(variants@[c.variant as int].numbers@));
    let number = v.numbers[0];
    match (&v.kind, &c.payload) {
        (VariantKind::Scalar(ty), Payload::Scalar(value)) => {
            let r = encode_tagged(number, *ty, value, sink);
            proof {
                lemma_offered_delivered(
                    s0,
                    state_of(*sink),
                    r,
                    tag_encoding(number, ty.wire_type()) + value@.encoding(),
                );
            }
            r
        },
        (VariantKind::Message(sub), Payload::Message(m)) => encode_nested(number, sub, m, sink),
        _ => Ok(0),
    }
}

/// Writes one field of a message.
fn encode_field<W: Writer>(d: &FieldDescriptor, f: &FieldValue, sink: &mut W) -> (r: Result<
    usize,
    WriterError,
>)
    requires
        crate::schema::leads(d.numbers@),
        match d.kind {
            FieldKind::Scalar(_) => true,
            FieldKind::Oneof(variants) => variants_sendable(variants),
            FieldKind::Message(sub) => sendable(sub),
        },
    ensures
        delivers(*old(sink), *final(sink), r, field_encoding(*d, f@)),
    decreases d, 0nat,
{
    let ghost s0 = state_of(*sink);
    assert((s0.written + Seq::<u8>::empty()) == s0.written);
    let number = d.numbers[0];
    match (&d.kind, f) {
        (FieldKind::Scalar(ty), FieldValue::Scalar(value)) => {
            let r = encode_tagged(number, *ty, value, sink);
            proof {
                lemma_offered_delivered(
                    s0,
                    state_of(*sink),
                    r,
                    tag_encoding(number, ty.wire_type()) + value@.encoding(),
                );
            }
            r
        },
        (FieldKind::Scalar(ty), FieldValue::Repeated(items)) => {
            let r = encode_items(number, *ty, items, sink);
            proof {
                lemma_offered_delivered(
                    s0,
                    state_of(*sink),
                    r,
                    items_encoding(number, *ty, values_view(items@), 0),
                );
            }
            r
        },
        (FieldKind::Oneof(variants), FieldValue::Oneof(Some(c))) => encode_chosen(variants, c, sink),
        (FieldKind::Message(sub), FieldValue::Message(m)) => encode_nested(number, sub, m, sink),
        _ => Ok(0),
    }
}

/// Writes a message: its fields, in the order of the schema.
///
/// It succeeds exactly when the sink has room for all of it, and then
/// returns how many bytes that took. A scalar field is written whatever
/// it holds, a list item by item and never packed, a oneof as the variant
/// it holds, if any.
pub fn encode<W: Writer>(schema: &MessageSchema, message: &Message, sink: &mut W) -> (r: Result<
    usize,
    WriterError,
>)
    requires
        sendable(*schema),
    ensures
        delivers(*old(sink), *final(sink), r, message_encoding(*schema, message@)),
    decreases schema, 1nat,
{
    let ghost all = message_encoding(*schema, message@);
    let ghost mut done: Seq<u8> = Seq::empty();
    let mut bytes_written: usize = 0;
    let mut i: usize = 0;
    proof {
        assert(done + all == all);
        let s0 = state_of(*sink);
        assert(s0.written + done == s0.written);
    }
    while i < schema.fields.len() && i < message.fields.len()
        invariant
            i <= schema.fields.len(),
            i <= message.fields.len(),
            sendable(*schema),
            all == message_encoding(*schema, message@),
            delivers(*old(sink), *sink, Ok(bytes_written), done),
            done + fields_encoding(*schema, message@, i as nat) == all,
        decreases schema.fields.len() - i,
    {
        let ghost one = field_encoding(schema.fields@[i as int], message.fields@[i as int]@);
        let ghost rest = fields_encoding(*schema, message@, (i + 1) as nat);
        assert(message@.fields[i as int] == message.fields@[i as int]@);
        assert(fields_encoding(*schema, message@, i as nat) == one + rest);
        assert(done + (one + rest) == done + one + rest);
        let ghost s1 = state_of(*sink);
        let step = encode_field(&schema.fields[i], &message.fields[i], sink);
        proof {
            lemma_delivered_then(
                state_of(*old(sink)),
                s1,
                state_of(*sink),
                Ok(bytes_written),
                step,
                done,
                one,
            );
        }
        match step {
            Ok(n) => {
                bytes_written += n;
            },
            Err(e) => {
                proof {
                    lemma_delivered_then(
                        state_of(*old(sink)),
                        state_of(*sink),
                        state_of(*sink),
                        step,
                        step,
                        done + one,
                        rest,
                    );
                }
                return Err(e);
            },
        }
        proof {
            done = done + one;
        }
        i += 1;
    }
    assert(fields_encoding(*schema, message@, i as nat) == Seq::<u8>::empty());
    assert(done + Seq::<u8>::empty() == done);
    Ok(bytes_written)
}

/// Writes a message of any schema: as [`encode`] does when every field of
/// the schema has a first number that fits in a tag, and not at all when
/// one has not.
pub fn try_encode<W: Writer>(schema: &MessageSchema, message: &Message, sink: &mut W) -> (r: Result<
    usize,
    WriterError,
>)
    ensures
        sendable(*schema) ==> delivers(*old(sink), *final(sink), r, message_encoding(*schema, message@)),
        !sendable(*schema) ==> r == Err::<usize, WriterError>(WriterError::OverflowError) && *final(sink)
            == *old(sink),
{
    if schema.is_sendable() {
        encode(schema, message, sink)
    } else {
        Err(WriterError::OverflowError)
    }
}

} // verus!
