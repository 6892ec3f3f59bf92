//! Message schemas: for each message type, the ordered table of field
//! descriptors that decoding and encoding are driven by.
//!
//! A schema is built once and never changed. The engine takes it as it is
//! given; [`MessageSchema::validate`] tells whether it is one that every
//! message can be sent through and read back from.

use vstd::prelude::*;
use crate::wiretypes::wire_types;

verus! {

/// The scalar types of the wire format.
#[derive(Debug, Copy, Clone, Eq, PartialEq)]
pub enum ScalarType {
    Int32,
    Int64,
    Uint32,
    Uint64,
    Sint32,
    Sint64,
    Fixed32,
    Fixed64,
    Sfixed32,
    Sfixed64,
    Double,
    Float,
    Bool,
    String,
    Bytes,
}

impl ScalarType {
    /// The wire type that values of this type are sent with.
    pub open spec fn wire_type(self) -> u8 {
        match self {
            ScalarType::Int32
            | ScalarType::Int64
            | ScalarType::Uint32
            | ScalarType::Uint64
            | ScalarType::Sint32
            | ScalarType::Sint64
            | ScalarType::Bool => 0,
            ScalarType::Fixed64 | ScalarType::Sfixed64 | ScalarType::Double => 1,
            ScalarType::String | ScalarType::Bytes => 2,
            ScalarType::Fixed32 | ScalarType::Sfixed32 | ScalarType::Float => 5,
        }
    }

    /// Whether several values of this type can be sent as one
    /// length-delimited run. Text and bytes cannot: a single one of them
    /// already looks like that.
    pub open spec fn packable(self) -> bool {
        self != ScalarType::String && self != ScalarType::Bytes
    }

    /// The wire type that values of this type are sent with.
    pub fn wire(&self) -> (w: u8)
        ensures
            w == self.wire_type(),
            w < 8,
    {
        match self {
            ScalarType::Int32
            | ScalarType::Int64
            | ScalarType::Uint32
            | ScalarType::Uint64
            | ScalarType::Sint32
            | ScalarType::Sint64
            | ScalarType::Bool => wire_types::VARINT,
            ScalarType::Fixed64 | ScalarType::Sfixed64 | ScalarType::Double => wire_types::B64,
            ScalarType::String | ScalarType::Bytes => wire_types::LENGTHDELIMITED,
            ScalarType::Fixed32 | ScalarType::Sfixed32 | ScalarType::Float => wire_types::B32,
        }
    }

    /// Whether several values of this type can be sent as one
    /// length-delimited run.
    pub fn is_packable(&self) -> (b: bool)
        ensures
            b == self.packable(),
    {
        match self {
            ScalarType::String | ScalarType::Bytes => false,
            _ => true,
        }
    }
}

/// What a variant of a oneof carries.
#[derive(Debug, PartialEq)]
pub enum VariantKind {
    /// One scalar value.
    Scalar(ScalarType),
    /// One embedded message.
    Message(MessageSchema),
}

/// One variant of a oneof.
#[derive(Debug, PartialEq)]
pub struct Variant {
    /// The name under which an overflow of this variant is reported.
    pub name: &'static str,
    /// The field numbers that select this variant. The first is the one it
    /// is sent under.
    pub numbers: Vec<u32>,
    /// What the variant carries.
    pub kind: VariantKind,
    /// The most bytes that a text or a run of bytes in this variant may
    /// have.
    pub capacity: usize,
}

/// What a field of a message holds.
#[derive(Debug, PartialEq)]
pub enum FieldKind {
    /// A scalar value, or several when the field is repeated.
    Scalar(ScalarType),
    /// At most one of several variants.
    Oneof(Vec<Variant>),
    /// An embedded message.
    Message(MessageSchema),
}

/// The description of one field of a message.
#[derive(Debug, PartialEq)]
pub struct FieldDescriptor {
    /// The name under which an overflow of this field is reported.
    pub name: &'static str,
    /// The field numbers that this field answers to. The first is the one
    /// it is sent under.
    pub numbers: Vec<u32>,
    /// What the field holds.
    pub kind: FieldKind,
    /// Whether the field holds a list of scalars rather than one.
    pub repeated: bool,
    /// The most bytes that a text or a run of bytes in this field may have.
    pub capacity: usize,
    /// The most items that the field may hold when it is repeated.
    pub max_count: usize,
}

/// The fields of one message type, in the order they were declared.
#[derive(Debug, PartialEq)]
pub struct MessageSchema {
    pub fields: Vec<FieldDescriptor>,
}

/// How deep messages are embedded in the variants: one more than the
/// deepest of the schemas among them, nothing when there is none.
pub open spec fn variants_nesting(variants: Vec<Variant>, j: nat) -> nat
    decreases variants, variants@.len() - j,
{
    if j >= variants@.len() {
        0
    } else {
        let here = match variants@[j as int].kind {
            VariantKind::Scalar(_) => 0nat,
            VariantKind::Message(sub) => 1 + nesting(sub, 0),
        };
        let rest = variants_nesting(variants, j + 1);
        if here >= rest {
            here
        } else {
            rest
        }
    }
}

/// How deep messages are embedded in the fields of a schema from index
/// `i` on: nothing for a schema of scalars, one more than the deepest
/// embedded schema otherwise. Reading and writing a message call
/// themselves this deep and no deeper, whatever the message holds.
pub open spec fn nesting(schema: MessageSchema, i: nat) -> nat
    decreases schema, schema.fields@.len() - i,
{
    if i >= schema.fields@.len() {
        0
    } else {
        let here = match schema.fields@[i as int].kind {
            FieldKind::Scalar(_) => 0nat,
            FieldKind::Oneof(variants) => variants_nesting(variants, 0),
            FieldKind::Message(sub) => 1 + nesting(sub, 0),
        };
        let rest = nesting(schema, i + 1);
        if here >= rest {
            here
        } else {
            rest
        }
    }
}

/// Whether the first of `numbers` exists and fits in a tag.
pub open spec fn leads(numbers: Seq<u32>) -> bool {
    numbers.len() > 0 && numbers[0] < 0x2000_0000
}

/// Whether every variant can be sent: each has a first field number that
/// fits in a tag, and so has every field of every message among them.
pub open spec fn variants_sendable(variants: Vec<Variant>) -> bool
    decreases variants,
{
    forall|j: int|
        0 <= j < variants@.len() ==> leads((#[trigger] variants@[j]).numbers@) && match variants@[j].kind {
            VariantKind::Scalar(_) => true,
            VariantKind::Message(sub) => sendable(sub),
        }
}

/// Whether every message of the schema can be sent: every field, and every
/// variant and every field of every message within, has a first field
/// number that fits in a tag.
pub open spec fn sendable(schema: MessageSchema) -> bool
    decreases schema,
{
    forall|i: int|
        0 <= i < schema.fields@.len() ==> leads((#[trigger] schema.fields@[i]).numbers@)
            && match schema.fields@[i].kind {
            FieldKind::Scalar(_) => true,
            FieldKind::Oneof(variants) => variants_sendable(variants),
            FieldKind::Message(sub) => sendable(sub),
        }
}

/// Whether no field number is in both lists.
pub open spec fn disjoint(a: Seq<u32>, b: Seq<u32>) -> bool {
    forall|n: u32| !(a.contains(n) && b.contains(n))
}

/// Whether a list of field numbers is one that a field can have: not
/// empty, and every number from 1 to the largest that fits in a tag.
pub open spec fn numbered(numbers: Seq<u32>) -> bool {
    &&& numbers.len() > 0
    &&& forall|k: int| 0 <= k < numbers.len() ==> 1 <= #[trigger] numbers[k] < 0x2000_0000
}

/// Whether the variants of a oneof are well formed: each has field numbers
/// of its own, all of them among the numbers of the oneof, and a message
/// among them has a well-formed schema.
pub open spec fn variants_well_formed(variants: Vec<Variant>, owner: Seq<u32>) -> bool
    decreases variants,
{
    &&& forall|j: int|
        0 <= j < variants@.len() ==> {
            &&& numbered((#[trigger] variants@[j]).numbers@)
            &&& forall|n: u32| variants@[j].numbers@.contains(n) ==> owner.contains(n)
            &&& match variants@[j].kind {
                VariantKind::Scalar(_) => true,
                VariantKind::Message(sub) => well_formed(sub),
            }
        }
    &&& forall|j: int, k: int|
        0 <= j < k < variants@.len() ==> disjoint(
            (#[trigger] variants@[j]).numbers@,
            (#[trigger] variants@[k]).numbers@,
        )
}

/// Whether a schema is well formed: every field has field numbers of its
/// own, and so has all that lies within its fields.
///
/// With such a schema the first field that answers to a number is the only
/// one, so the order of the fields decides nothing.
pub open spec fn well_formed(schema: MessageSchema) -> bool
    decreases schema,
{
    &&& forall|i: int|
        0 <= i < schema.fields@.len() ==> {
            &&& numbered((#[trigger] schema.fields@[i]).numbers@)
            &&& match schema.fields@[i].kind {
                FieldKind::Scalar(_) => true,
                FieldKind::Oneof(variants) => variants_well_formed(variants, schema.fields@[i].numbers@),
                FieldKind::Message(sub) => well_formed(sub),
            }
        }
    &&& forall|i: int, j: int|
        0 <= i < j < schema.fields@.len() ==> disjoint(
            (#[trigger] schema.fields@[i]).numbers@,
            (#[trigger] schema.fields@[j]).numbers@,
        )
}

/// A well-formed schema can be sent.
pub proof fn lemma_well_formed_sendable(schema: MessageSchema)
    requires
        well_formed(schema),
    ensures
        sendable(schema),
    decreases schema,
{
    assert forall|i: int| 0 <= i < schema.fields@.len() implies leads(
        (#[trigger] schema.fields@[i]).numbers@,
    ) && match schema.fields@[i].kind {
        FieldKind::Scalar(_) => true,
        FieldKind::Oneof(variants) => variants_sendable(variants),
        FieldKind::Message(sub) => sendable(sub),
    } by {
        match schema.fields@[i].kind {
            FieldKind::Scalar(_) => {},
            FieldKind::Oneof(variants) => {
                lemma_variants_well_formed_sendable(variants, schema.fields@[i].numbers@);
            },
            FieldKind::Message(sub) => {
                lemma_well_formed_sendable(sub);
            },
        }
    }
}

/// Well-formed variants can be sent.
pub proof fn lemma_variants_well_formed_sendable(variants: Vec<Variant>, owner: Seq<u32>)
    requires
        variants_well_formed(variants, owner),
    ensures
        variants_sendable(variants),
    decreases variants,
{
    assert forall|j: int| 0 <= j < variants@.len() implies leads((#[trigger] variants@[j]).numbers@)
        && match variants@[j].kind {
        VariantKind::Scalar(_) => true,
        VariantKind::Message(sub) => sendable(sub),
    } by {
        match variants@[j].kind {
            VariantKind::Scalar(_) => {},
            VariantKind::Message(sub) => {
                lemma_well_formed_sendable(sub);
            },
        }
    }
}

/// The first descriptor from `start` on that answers to a number is the
/// one at `i`, when that one answers and none between `start` and it does.
pub proof fn lemma_find_field_is(fields: Seq<FieldDescriptor>, number: u32, start: nat, i: nat)
    requires
        start <= i < fields.len(),
        fields[i as int].numbers@.contains(number),
        forall|j: int| start <= j < i ==> !fields[j].numbers@.contains(number),
    ensures
        find_field_from(fields, number, start) == Some(i),
    decreases i - start,
{
    if start < i {
        lemma_find_field_is(fields, number, start + 1, i);
    }
}

/// No descriptor from `start` on answers to a number that none of them
/// has.
pub proof fn lemma_find_field_none(fields: Seq<FieldDescriptor>, number: u32, start: nat)
    requires
        forall|j: int| start <= j < fields.len() ==> !fields[j].numbers@.contains(number),
    ensures
        find_field_from(fields, number, start) is None,
    decreases fields.len() - start,
{
    if start < fields.len() {
        lemma_find_field_none(fields, number, start + 1);
    }
}

/// The first variant from `start` on that a number selects is the one at
/// `i`, when that one is selected and none between `start` and it is.
pub proof fn lemma_find_variant_is(variants: Seq<Variant>, number: u32, start: nat, i: nat)
    requires
        start <= i < variants.len(),
        variants[i as int].numbers@.contains(number),
        forall|j: int| start <= j < i ==> !variants[j].numbers@.contains(number),
    ensures
        find_variant_from(variants, number, start) == Some(i),
    decreases i - start,
{
    if start < i {
        lemma_find_variant_is(variants, number, start + 1, i);
    }
}

/// The index of the first descriptor from `start` on that answers to
/// `number`.
pub open spec fn find_field_from(fields: Seq<FieldDescriptor>, number: u32, start: nat) -> Option<nat>
    decreases fields.len() - start,
{
    if start >= fields.len() {
        None
    } else if fields[start as int].numbers@.contains(number) {
        Some(start)
    } else {
        find_field_from(fields, number, start + 1)
    }
}

/// The index of the first descriptor, in declaration order, that answers
/// to `number`.
pub open spec fn find_field(fields: Seq<FieldDescriptor>, number: u32) -> Option<nat> {
    find_field_from(fields, number, 0)
}

/// The index of the first variant from `start` on that `number` selects.
pub open spec fn find_variant_from(variants: Seq<Variant>, number: u32, start: nat) -> Option<nat>
    decreases variants.len() - start,
{
    if start >= variants.len() {
        None
    } else if variants[start as int].numbers@.contains(number) {
        Some(start)
    } else {
        find_variant_from(variants, number, start + 1)
    }
}

/// The index of the first variant, in declaration order, that `number`
/// selects.
pub open spec fn find_variant(variants: Seq<Variant>, number: u32) -> Option<nat> {
    find_variant_from(variants, number, 0)
}

/// What a search found lies in the table and answers to the number, and
/// nothing from `start` up to it does.
pub proof fn lemma_find_field_from(fields: Seq<FieldDescriptor>, number: u32, start: nat)
    ensures
        match find_field_from(fields, number, start) {
            Some(i) => start <= i < fields.len() && fields[i as int].numbers@.contains(number) && forall|
                j: int,
            |
                start <= j < i ==> !fields[j].numbers@.contains(number),
            None => forall|j: int| start <= j < fields.len() ==> !fields[j].numbers@.contains(number),
        },
    decreases fields.len() - start,
{
    if start < fields.len() && !fields[start as int].numbers@.contains(number) {
        lemma_find_field_from(fields, number, start + 1);
    }
}

/// What a search found lies in the table and is selected by the number,
/// and nothing from `start` up to it is.
pub proof fn lemma_find_variant_from(variants: Seq<Variant>, number: u32, start: nat)
    ensures
        match find_variant_from(variants, number, start) {
            Some(i) => start <= i < variants.len() && variants[i as int].numbers@.contains(number)
                && forall|j: int| start <= j < i ==> !variants[j].numbers@.contains(number),
            None => forall|j: int|
                start <= j < variants.len() ==> !variants[j].numbers@.contains(number),
        },
    decreases variants.len() - start,
{
    if start < variants.len() && !variants[start as int].numbers@.contains(number) {
        lemma_find_variant_from(variants, number, start + 1);
    }
}

/// Whether `number` is among `numbers`.
pub fn answers_to(numbers: &Vec<u32>, number: u32) -> (found: bool)
    ensures
        found == numbers@.contains(number),
{
    let mut i: usize = 0;
    while i < numbers.len()
        invariant
            i <= numbers.len(),
            forall|j: int| 0 <= j < i ==> numbers@[j] != number,
        decreases numbers.len() - i,
    {
        if numbers[i] == number {
            return true;
        }
        i += 1;
    }
    false
}

impl MessageSchema {
    /// The index of the first field, in declaration order, that answers to
    /// `number`.
    pub fn field_for(&self, number: u32) -> (found: Option<usize>)
        ensures
            match find_field(self.fields@, number) {
                Some(i) => found matches Some(k) && k == i && i < self.fields@.len(),
                None => found is None,
            },
    {
        let mut i: usize = 0;
        while i < self.fields.len()
            invariant
                i <= self.fields.len(),
                find_field(self.fields@, number) == find_field_from(self.fields@, number, i as nat),
            decreases self.fields.len() - i,
        {
            if answers_to(&self.fields[i].numbers, number) {
                return Some(i);
            }
            i += 1;
        }
        None
    }
}

/// The index of the first variant, in declaration order, that `number`
/// selects.
pub fn variant_for(variants: &Vec<Variant>, number: u32) -> (found: Option<usize>)
    ensures
        match find_variant(variants@, number) {
            Some(i) => found matches Some(k) && k == i && i < variants@.len(),
            None => found is None,
        },
{
    let mut i: usize = 0;
    while i < variants.len()
        invariant
            i <= variants.len(),
            find_variant(variants@, number) == find_variant_from(variants@, number, i as nat),
        decreases variants.len() - i,
    {
        if answers_to(&variants[i].numbers, number) {
            return Some(i);
        }
        i += 1;
    }
    None
}

/// Whether a list of field numbers is one that a field can have.
pub fn is_numbered(numbers: &Vec<u32>) -> (ok: bool)
    ensures
        ok == numbered(numbers@),
{
    if numbers.len() == 0 {
        return false;
    }
    let mut k: usize = 0;
    while k < numbers.len()
        invariant
            k <= numbers.len(),
            forall|j: int| 0 <= j < k ==> 1 <= #[trigger] numbers@[j] < 0x2000_0000,
        decreases numbers.len() - k,
    {
        if numbers[k] < 1 || numbers[k] >= 0x2000_0000 {
            return false;
        }
        k += 1;
    }
    true
}

/// Whether no field number is in both lists.
pub fn are_disjoint(a: &Vec<u32>, b: &Vec<u32>) -> (ok: bool)
    ensures
        ok == disjoint(a@, b@),
{
    let mut k: usize = 0;
    while k < a.len()
        invariant
            k <= a.len(),
            forall|j: int| 0 <= j < k ==> !b@.contains(#[trigger] a@[j]),
        decreases a.len() - k,
    {
        if answers_to(b, a[k]) {
            assert(a@.contains(a@[k as int]));
            return false;
        }
        k += 1;
    }
    assert forall|n: u32| !(a@.contains(n) && b@.contains(n)) by {
        if a@.contains(n) {
            let j = choose|j: int| 0 <= j < a@.len() && a@[j] == n;
            assert(!b@.contains(a@[j]));
        }
    }
    true
}

/// Whether every field number of `a` is among those of `owner`.
pub fn are_among(a: &Vec<u32>, owner: &Vec<u32>) -> (ok: bool)
    ensures
        ok == (forall|n: u32| a@.contains(n) ==> owner@.contains(n)),
{
    let mut k: usize = 0;
    while k < a.len()
        invariant
            k <= a.len(),
            forall|j: int| 0 <= j < k ==> owner@.contains(#[trigger] a@[j]),
        decreases a.len() - k,
    {
        if !answers_to(owner, a[k]) {
            assert(a@.contains(a@[k as int]));
            return false;
        }
        k += 1;
    }
    assert forall|n: u32| a@.contains(n) implies owner@.contains(n) by {
        let j = choose|j: int| 0 <= j < a@.len() && a@[j] == n;
        assert(owner@.contains(a@[j]));
    }
    true
}

/// Whether the variant at index `j` shares no field number with any
/// variant before it.
fn variant_stands_apart(variants: &Vec<Variant>, j: usize) -> (ok: bool)
    requires
        j < variants@.len(),
    ensures
        ok == (forall|k: int| 0 <= k < j ==> disjoint((#[trigger] variants@[k]).numbers@, variants@[j as int].numbers@)),
{
    let mut k: usize = 0;
    while k < j
        invariant
            k <= j,
            j < variants@.len(),
            forall|h: int|
                0 <= h < k ==> disjoint((#[trigger] variants@[h]).numbers@, variants@[j as int].numbers@),
        decreases j - k,
    {
        if !are_disjoint(&variants[k].numbers, &variants[j].numbers) {
            return false;
        }
        k += 1;
    }
    true
}

/// Whether the field at index `j` shares no field number with any field
/// before it.
fn field_stands_apart(fields: &Vec<FieldDescriptor>, j: usize) -> (ok: bool)
    requires
        j < fields@.len(),
    ensures
        ok == (forall|k: int| 0 <= k < j ==> disjoint((#[trigger] fields@[k]).numbers@, fields@[j as int].numbers@)),
{
    let mut k: usize = 0;
    while k < j
        invariant
            k <= j,
            j < fields@.len(),
            forall|h: int|
                0 <= h < k ==> disjoint((#[trigger] fields@[h]).numbers@, fields@[j as int].numbers@),
        decreases j - k,
    {
        if !are_disjoint(&fields[k].numbers, &fields[j].numbers) {
            return false;
        }
        k += 1;
    }
    true
}

/// Whether the variants of a oneof with the field numbers `owner` are
/// well formed.
pub fn validate_variants(variants: &Vec<Variant>, owner: &Vec<u32>) -> (ok: bool)
    ensures
        ok == variants_well_formed(*variants, owner@),
    decreases variants,
{
    let mut j: usize = 0;
    while j < variants.len()
        invariant
            j <= variants.len(),
            forall|h: int|
                0 <= h < j ==> {
                    &&& numbered((#[trigger] variants@[h]).numbers@)
                    &&& forall|n: u32| variants@[h].numbers@.contains(n) ==> owner@.contains(n)
                    &&& match variants@[h].kind {
                        VariantKind::Scalar(_) => true,
                        VariantKind::Message(sub) => well_formed(sub),
                    }
                },
            forall|h: int, k: int|
                0 <= h < k < j ==> disjoint(
                    (#[trigger] variants@[h]).numbers@,
                    (#[trigger] variants@[k]).numbers@,
                ),
        decreases variants.len() - j,
    {
        let v = &variants[j];
        if !is_numbered(&v.numbers) {
            return false;
        }
        if !are_among(&v.numbers, owner) {
            return false;
        }
        let inner = match &v.kind {
            VariantKind::Scalar(_) => true,
            VariantKind::Message(sub) => sub.validate(),
        };
        if !inner {
            return false;
        }
        if !variant_stands_apart(variants, j) {
            return false;
        }
        j += 1;
    }
    true
}

impl MessageSchema {
    /// Whether the schema is well formed: every field, and everything
    /// within it, has field numbers of its own that fit in a tag.
    pub fn validate(&self) -> (ok: bool)
        ensures
            ok == well_formed(*self),
        decreases self,
    {
        let mut i: usize = 0;
        while i < self.fields.len()
            invariant
                i <= self.fields.len(),
                forall|h: int|
                    0 <= h < i ==> {
                        &&& numbered((#[trigger] self.fields@[h]).numbers@)
                        &&& match self.fields@[h].kind {
                            FieldKind::Scalar(_) => true,
                            FieldKind::Oneof(variants) => variants_well_formed(
                                variants,
                                self.fields@[h].numbers@,
                            ),
                            FieldKind::Message(sub) => well_formed(sub),
                        }
                    },
                forall|h: int, k: int|
                    0 <= h < k < i ==> disjoint(
                        (#[trigger] self.fields@[h]).numbers@,
                        (#[trigger] self.fields@[k]).numbers@,
                    ),
            decreases self.fields.len() - i,
        {
            let d = &self.fields[i];
            if !is_numbered(&d.numbers) {
                return false;
            }
            let inner = match &d.kind {
                FieldKind::Scalar(_) => true,
                FieldKind::Oneof(variants) => validate_variants(variants, &d.numbers),
                FieldKind::Message(sub) => sub.validate(),
            };
            if !inner {
                return false;
            }
            if !field_stands_apart(&self.fields, i) {
                return false;
            }
            i += 1;
        }
        true
    }
}

/// Whether every variant can be sent.
pub fn are_variants_sendable(variants: &Vec<Variant>) -> (ok: bool)
    ensures
        ok == variants_sendable(*variants),
    decreases variants,
{
    let mut j: usize = 0;
    while j < variants.len()
        invariant
            j <= variants.len(),
            forall|h: int|
                0 <= h < j ==> leads((#[trigger] variants@[h]).numbers@) && match variants@[h].kind {
                    VariantKind::Scalar(_) => true,
                    VariantKind::Message(sub) => sendable(sub),
                },
        decreases variants.len() - j,
    {
        let v = &variants[j];
        if v.numbers.len() == 0 || v.numbers[0] >= 0x2000_0000 {
            return false;
        }
        let inner = match &v.kind {
            VariantKind::Scalar(_) => true,
            VariantKind::Message(sub) => sub.is_sendable(),
        };
        if !inner {
            return false;
        }
        j += 1;
    }
    true
}

impl MessageSchema {
    /// Whether every message of the schema can be sent: every field, and
    /// every variant and every field of every message within, has a first
    /// field number that fits in a tag.
    pub fn is_sendable(&self) -> (ok: bool)
        ensures
            ok == sendable(*self),
        decreases self,
    {
        let mut i: usize = 0;
        while i < self.fields.len()
            invariant
                i <= self.fields.len(),
                forall|h: int|
                    0 <= h < i ==> leads((#[trigger] self.fields@[h]).numbers@) && match self.fields@[h].kind {
                        FieldKind::Scalar(_) => true,
                        FieldKind::Oneof(variants) => variants_sendable(variants),
                        FieldKind::Message(sub) => sendable(sub),
                    },
            decreases self.fields.len() - i,
        {
            let d = &self.fields[i];
            if d.numbers.len() == 0 || d.numbers[0] >= 0x2000_0000 {
                return false;
            }
            let inner = match &d.kind {
                FieldKind::Scalar(_) => true,
                FieldKind::Oneof(variants) => are_variants_sendable(variants),
                FieldKind::Message(sub) => sub.is_sendable(),
            };
            if !inner {
                return false;
            }
            i += 1;
        }
        true
    }
}

/// Whether messages are embedded in the variants no deeper than `limit`.
pub fn variants_nest_within(variants: &Vec<Variant>, limit: usize) -> (ok: bool)
    ensures
        ok == (variants_nesting(*variants, 0) <= limit),
    decreases variants,
{
    let mut j: usize = variants.len();
    while j > 0
        invariant
            j <= variants.len(),
            variants_nesting(*variants, j as nat) <= limit,
        decreases j,
    {
        j -= 1;
        let inner = match &variants[j].kind {
            VariantKind::Scalar(_) => true,
            VariantKind::Message(sub) => limit > 0 && sub.nests_within(limit - 1),
        };
        if !inner {
            proof {
                lemma_variants_nesting_grows(*variants, j as nat);
            }
            return false;
        }
    }
    true
}

/// The variants from an index on are embedded no less deep than those
/// from a later index on.
proof fn lemma_variants_nesting_grows(variants: Vec<Variant>, j: nat)
    ensures
        variants_nesting(variants, 0) >= variants_nesting(variants, j),
    decreases j,
{
    if 0 < j <= variants@.len() {
        lemma_variants_nesting_grows(variants, (j - 1) as nat);
    } else if j > variants@.len() {
        assert(variants_nesting(variants, j) == 0);
    }
}

/// The fields from the first on are embedded no less deep than those
/// from a later index on.
proof fn lemma_nesting_grows(schema: MessageSchema, i: nat)
    ensures
        nesting(schema, 0) >= nesting(schema, i),
    decreases i,
{
    if 0 < i <= schema.fields@.len() {
        lemma_nesting_grows(schema, (i - 1) as nat);
    } else if i > schema.fields@.len() {
        assert(nesting(schema, i) == 0);
    }
}

impl MessageSchema {
    /// Whether messages are embedded in the schema no deeper than
    /// `limit`. Reading and writing a message of the schema call
    /// themselves as deep as messages are embedded in it, so this is the
    /// place to bound the stack that they take.
    pub fn nests_within(&self, limit: usize) -> (ok: bool)
        ensures
            ok == (nesting(*self, 0) <= limit),
        decreases self,
    {
        let mut i: usize = self.fields.len();
        while i > 0
            invariant
                i <= self.fields.len(),
                nesting(*self, i as nat) <= limit,
            decreases i,
        {
            i -= 1;
            let inner = match &self.fields[i].kind {
                FieldKind::Scalar(_) => true,
                FieldKind::Oneof(variants) => variants_nest_within(variants, limit),
                FieldKind::Message(sub) => limit > 0 && sub.nests_within(limit - 1),
            };
            if !inner {
                proof {
                    lemma_nesting_grows(*self, i as nat);
                }
                return false;
            }
        }
        true
    }
}

} // verus!
