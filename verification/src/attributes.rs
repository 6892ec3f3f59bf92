//! Field declarations: what the annotation of a field or of a variant says
//! of it, read from the plain values of the annotation.
//!
//! An annotation is a list of items. `nr` gives the field numbers, either
//! as one number or as a text such as `"1-3;7"`: numbers and ranges of
//! numbers, ends included, separated by semicolons. A word names the type,
//! or says that the field is repeated. The last item of a kind is the one
//! that counts. A declaration that cannot be read is an error of the
//! schema, found before any message is.

use vstd::prelude::*;
use vstd::string::StringSliceAdditionalSpecFns;
use crate::schema::{FieldDescriptor, FieldKind, MessageSchema, ScalarType, Variant, VariantKind};

verus! {

/// Why a declaration cannot be read, or cannot be made a part of a schema.
#[derive(Debug, Copy, Clone, Eq, PartialEq)]
pub enum SchemaError {
    /// The text of `nr` is not a list of numbers and ranges.
    InvalidNumbers,
    /// A word names no type that the declaration may have, or no type was
    /// named at all.
    UnknownFieldType,
    /// An item is neither `nr` nor a word.
    InvalidAttribute,
    /// A variant of a oneof is declared as a oneof itself.
    NestedOneof,
    /// What was given for the inside of a field is not what its type asks
    /// for.
    WrongShape,
}

/// What lies inside a field, beyond what its annotation says: how much a
/// scalar may hold, which variants a oneof has, which schema an embedded
/// message has.
pub enum Shape {
    /// For a scalar: the most bytes of a text or of a run of bytes, and the
    /// most items of a list.
    Scalar { capacity: usize, max_count: usize },
    /// For a oneof: its variants.
    Oneof(Vec<Variant>),
    /// For an embedded message: its schema.
    Message(MessageSchema),
}

/// One item of an annotation.
#[derive(Debug, Copy, Clone, Eq, PartialEq)]
pub enum Attribute<'a> {
    /// `nr = 5`
    Number(u32),
    /// `nr = "1-3;7"`
    Numbers(&'a str),
    /// `int32`, `repeated`, ...
    Word(&'a str),
    /// Anything else.
    Other,
}

/// The type that a declaration names.
#[derive(Debug, Copy, Clone, Eq, PartialEq)]
pub enum ProtoType {
    Scalar(ScalarType),
    Oneof,
    Message,
}

/// What the annotation of a field says.
#[derive(Debug, PartialEq)]
pub struct ParsedField {
    pub field_name: &'static str,
    /// The field numbers; `0` alone when none were given.
    pub field_numbers: Vec<u32>,
    /// The type, when one was named.
    pub proto_type: Option<ProtoType>,
    pub repeated: bool,
}

/// What the annotation of a variant of a oneof says.
#[derive(Debug, PartialEq)]
pub struct ParsedVariant {
    pub field_name: &'static str,
    /// The field numbers; `0` alone when none were given.
    pub field_numbers: Vec<u32>,
    /// The type, when one was named.
    pub proto_type: Option<ProtoType>,
}

// ---------------------------------------------------------------------------
// Numbers
// ---------------------------------------------------------------------------

/// Whether a byte is a decimal digit.
pub open spec fn is_digit(b: u8) -> bool {
    48 <= b <= 57
}

/// The number that a run of decimal digits stands for.
pub open spec fn digits_value(s: Seq<u8>) -> nat
    decreases s.len(),
{
    if s.len() == 0 {
        0
    } else {
        digits_value(s.drop_last()) * 10 + (s.last() - 48) as nat
    }
}

/// Whether every byte of a run is a decimal digit.
pub open spec fn all_digits(s: Seq<u8>) -> bool {
    forall|i: int| 0 <= i < s.len() ==> is_digit(#[trigger] s[i])
}

/// A text without the plus sign that may stand in front of it.
pub open spec fn unsigned_part(s: Seq<u8>) -> Seq<u8> {
    if s.len() > 0 && s[0] == 43 {
        s.skip(1)
    } else {
        s
    }
}

/// The number that a text stands for: decimal digits, at least one, with
/// or without a plus sign in front, and no more than 32 bits can hold.
pub open spec fn decimal(s: Seq<u8>) -> Option<u32> {
    let digits = unsigned_part(s);
    if digits.len() > 0 && all_digits(digits) && digits_value(digits) <= u32::MAX {
        Some(digits_value(digits) as u32)
    } else {
        None
    }
}

/// The index of the first `b` in `s`, or the length of `s` when there is
/// none.
pub open spec fn first_index_of(s: Seq<u8>, b: u8) -> nat
    decreases s.len(),
{
    if s.len() == 0 || s[0] == b {
        0
    } else {
        1 + first_index_of(s.skip(1), b)
    }
}

/// The numbers from `lo` to `hi`, ends included; none when `lo` is above
/// `hi`.
pub open spec fn range_inclusive(lo: u32, hi: u32) -> Seq<u32> {
    Seq::new(
        if lo <= hi {
            (hi - lo + 1) as nat
        } else {
            0
        },
        |i: int| (lo + i) as u32,
    )
}

/// The numbers that one part of an `nr` text stands for: a range when
/// there is a hyphen in it, a single number otherwise.
pub open spec fn segment_numbers(s: Seq<u8>) -> Option<Seq<u32>> {
    let k = first_index_of(s, 45);
    if k < s.len() {
        match (decimal(s.take(k as int)), decimal(s.skip(k as int + 1))) {
            (Some(lo), Some(hi)) => Some(range_inclusive(lo, hi)),
            _ => None,
        }
    } else {
        match decimal(s) {
            Some(n) => Some(seq![n]),
            None => None,
        }
    }
}

/// The numbers that an `nr` text stands for: those of its parts, which
/// semicolons separate, one after the other.
pub open spec fn numbers_of(s: Seq<u8>) -> Option<Seq<u32>>
    decreases s.len(),
{
    let k = first_index_of(s, 59);
    match segment_numbers(s.take(k as int)) {
        None => None,
        Some(head) => if k >= s.len() {
            Some(head)
        } else {
            match numbers_of(s.skip(k as int + 1)) {
                Some(tail) => Some(head + tail),
                None => None,
            }
        },
    }
}

/// The first `b` is at `k` when it is there and not before, and there is
/// none when nothing before the end is `b`.
pub proof fn lemma_first_index_of(s: Seq<u8>, b: u8, k: nat)
    requires
        k <= s.len(),
        forall|j: int| 0 <= j < k ==> s[j] != b,
        k == s.len() || s[k as int] == b,
    ensures
        first_index_of(s, b) == k,
    decreases k,
{
    if k > 0 {
        assert forall|j: int| 0 <= j < k - 1 implies s.skip(1)[j] != b by {
            assert(s.skip(1)[j] == s[j + 1]);
        }
        lemma_first_index_of(s.skip(1), b, (k - 1) as nat);
    }
}

/// A run of digits stands for no less than any run it starts with.
pub proof fn lemma_digits_value_grows(s: Seq<u8>, i: nat)
    requires
        i <= s.len(),
        all_digits(s),
    ensures
        digits_value(s.take(i as int)) <= digits_value(s),
    decreases s.len(),
{
    if i < s.len() {
        lemma_digits_value_grows(s.drop_last(), i);
        assert(s.drop_last().take(i as int) == s.take(i as int));
    } else {
        assert(s.take(i as int) == s);
    }
}

/// Reads a decimal number from the bytes of `text` between `from` and
/// `to`.
fn read_decimal(text: &[u8], from: usize, to: usize) -> (r: Option<u32>)
    requires
        from <= to <= text@.len(),
    ensures
        r == decimal(text@.subrange(from as int, to as int)),
{
    let ghost s = text@.subrange(from as int, to as int);
    let start = if from < to && text[from] == 43 { from + 1 } else { from };
    let ghost digits = unsigned_part(s);
    assert(digits == text@.subrange(start as int, to as int));
    if start == to {
        return None;
    }
    let mut value: u32 = 0;
    let mut i: usize = start;
    assert(digits.take(0) == Seq::<u8>::empty());
    while i < to
        invariant
            from <= start <= i <= to <= text@.len(),
            start < to,
            digits == text@.subrange(start as int, to as int),
            digits == unsigned_part(text@.subrange(from as int, to as int)),
            forall|j: int| 0 <= j < i - start ==> is_digit(#[trigger] digits[j]),
            value == digits_value(digits.take(i - start)),
        decreases to - i,
    {
        let b = text[i];
        assert(b == digits[i - start]);
        if b < 48 || b > 57 {
            return None;
        }
        let ghost before = digits.take(i - start);
        let ghost after = digits.take(i - start + 1);
        assert(after.drop_last() == before);
        assert(after.last() == b);
        let next = value as u64 * 10 + (b - 48) as u64;
        if next > u32::MAX as u64 {
            proof {
                if all_digits(digits) {
                    lemma_digits_value_grows(digits, (i - start + 1) as nat);
                }
            }
            return None;
        }
        value = next as u32;
        i += 1;
    }
    assert(digits.take(to - start) == digits);
    Some(value)
}

/// Reads the numbers of one part of an `nr` text, the bytes of `text`
/// between `from` and `to`, and appends them to `out`.
fn read_segment(text: &[u8], from: usize, to: usize, out: &mut Vec<u32>) -> (ok: bool)
    requires
        from <= to <= text@.len(),
    ensures
        match segment_numbers(text@.subrange(from as int, to as int)) {
            Some(numbers) => ok && final(out)@ == old(out)@ + numbers,
            None => !ok,
        },
{
    let ghost s = text@.subrange(from as int, to as int);
    let mut k: usize = from;
    while k < to && text[k] != 45
        invariant
            from <= k <= to <= text@.len(),
            s == text@.subrange(from as int, to as int),
            forall|j: int| 0 <= j < k - from ==> s[j] != 45,
        decreases to - k,
    {
        k += 1;
    }
    proof {
        lemma_first_index_of(s, 45, (k - from) as nat);
    }
    if k < to {
        assert(s.take(k - from) == text@.subrange(from as int, k as int));
        assert(s.skip(k - from + 1) == text@.subrange(k + 1, to as int));
        let lo = match read_decimal(text, from, k) {
            Some(lo) => lo,
            None => {
                return false;
            },
        };
        let hi = match read_decimal(text, k + 1, to) {
            Some(hi) => hi,
            None => {
                return false;
            },
        };
        let ghost numbers = range_inclusive(lo, hi);
        let mut n: u64 = lo as u64;
        assert(numbers.take(0) == Seq::<u32>::empty());
        assert(old(out)@ + Seq::<u32>::empty() == old(out)@);
        while n <= hi as u64
            invariant
                lo <= n <= hi + 1 || (lo > hi && n == lo),
                numbers == range_inclusive(lo, hi),
                out@ == old(out)@ + numbers.take(n - lo),
            decreases hi + 1 - n,
        {
            out.push(n as u32);
            assert(numbers.take(n - lo).push(n as u32) == numbers.take(n - lo + 1));
            assert(old(out)@ + numbers.take(n - lo).push(n as u32) == (old(out)@ + numbers.take(n - lo)).push(
                n as u32,
            ));
            n += 1;
        }
        assert(numbers.take(n - lo) == numbers);
        true
    } else {
        match read_decimal(text, from, to) {
            Some(n) => {
                out.push(n);
                assert(old(out)@.push(n) == old(out)@ + seq![n]);
                true
            },
            None => false,
        }
    }
}

/// Reads the field numbers that an `nr` text stands for.
pub fn parse_numbers(text: &str) -> (r: Result<Vec<u32>, SchemaError>)
    ensures
        match numbers_of(text.spec_bytes()) {
            Some(numbers) => r matches Ok(v) && v@ == numbers,
            None => r == Err::<Vec<u32>, SchemaError>(SchemaError::InvalidNumbers),
        },
{
    let bytes = text.as_bytes();
    let ghost all = bytes@;
    let mut out: Vec<u32> = Vec::new();
    let mut from: usize = 0;
    assert(all.skip(0) == all);
    loop
        invariant
            from <= bytes@.len(),
            all == bytes@,
            all == text.spec_bytes(),
            numbers_of(all) == match numbers_of(all.skip(from as int)) {
                Some(tail) => Some(out@ + tail),
                None => None,
            },
        decreases bytes@.len() - from,
    {
        let ghost rest = all.skip(from as int);
        let mut to: usize = from;
        while to < bytes.len() && bytes[to] != 59
            invariant
                from <= to <= bytes@.len(),
                all == bytes@,
                rest == all.skip(from as int),
                forall|j: int| 0 <= j < to - from ==> rest[j] != 59,
            decreases bytes@.len() - to,
        {
            to += 1;
        }
        proof {
            lemma_first_index_of(rest, 59, (to - from) as nat);
            assert(rest.take(to - from) == all.subrange(from as int, to as int));
        }
        let ghost held = out@;
        if !read_segment(bytes, from, to, &mut out) {
            return Err(SchemaError::InvalidNumbers);
        }
        if to >= bytes.len() {
            return Ok(out);
        }
        proof {
            assert(rest.skip(to - from + 1) == all.skip(to + 1));
            let head = segment_numbers(rest.take(to - from))->Some_0;
            match numbers_of(all.skip(to + 1)) {
                Some(tail) => {
                    assert(held + (head + tail) == held + head + tail);
                },
                None => {},
            }
        }
        from = to + 1;
    }
}

// ---------------------------------------------------------------------------
// Words
// ---------------------------------------------------------------------------

/// Whether two texts are the same.
pub fn same_text(a: &str, b: &str) -> (same: bool)
    ensures
        same == (a@ == b@),
{
    let x = a.as_bytes();
    let y = b.as_bytes();
    proof {
        vstd::utf8::encode_utf8_decode_utf8(a@);
        vstd::utf8::encode_utf8_decode_utf8(b@);
    }
    if x.len() != y.len() {
        return false;
    }
    let mut i: usize = 0;
    while i < x.len()
        invariant
            i <= x@.len(),
            x@.len() == y@.len(),
            x@ == a.spec_bytes(),
            y@ == b.spec_bytes(),
            forall|j: int| 0 <= j < i ==> x@[j] == y@[j],
        decreases x@.len() - i,
    {
        if x[i] != y[i] {
            return false;
        }
        i += 1;
    }
    assert(x@ == y@);
    true
}

/// The scalar type that a word names.
pub open spec fn scalar_type_named(name: Seq<char>) -> Option<ScalarType> {
    if name == "int32"@ {
        Some(ScalarType::Int32)
    } else if name == "int64"@ {
        Some(ScalarType::Int64)
    } else if name == "uint32"@ {
        Some(ScalarType::Uint32)
    } else if name == "uint64"@ {
        Some(ScalarType::Uint64)
    } else if name == "sint32"@ {
        Some(ScalarType::Sint32)
    } else if name == "sint64"@ {
        Some(ScalarType::Sint64)
    } else if name == "fixed32"@ {
        Some(ScalarType::Fixed32)
    } else if name == "fixed64"@ {
        Some(ScalarType::Fixed64)
    } else if name == "sfixed32"@ {
        Some(ScalarType::Sfixed32)
    } else if name == "sfixed64"@ {
        Some(ScalarType::Sfixed64)
    } else if name == "double"@ {
        Some(ScalarType::Double)
    } else if name == "float"@ {
        Some(ScalarType::Float)
    } else if name == "bool"@ {
        Some(ScalarType::Bool)
    } else if name == "string"@ {
        Some(ScalarType::String)
    } else if name == "bytes"@ {
        Some(ScalarType::Bytes)
    } else {
        None
    }
}

/// The scalar type that a word names.
pub fn scalar_type_for(name: &str) -> (r: Option<ScalarType>)
    ensures
        r == scalar_type_named(name@),
{
    if same_text(name, "int32") {
        Some(ScalarType::Int32)
    } else if same_text(name, "int64") {
        Some(ScalarType::Int64)
    } else if same_text(name, "uint32") {
        Some(ScalarType::Uint32)
    } else if same_text(name, "uint64") {
        Some(ScalarType::Uint64)
    } else if same_text(name, "sint32") {
        Some(ScalarType::Sint32)
    } else if same_text(name, "sint64") {
        Some(ScalarType::Sint64)
    } else if same_text(name, "fixed32") {
        Some(ScalarType::Fixed32)
    } else if same_text(name, "fixed64") {
        Some(ScalarType::Fixed64)
    } else if same_text(name, "sfixed32") {
        Some(ScalarType::Sfixed32)
    } else if same_text(name, "sfixed64") {
        Some(ScalarType::Sfixed64)
    } else if same_text(name, "double") {
        Some(ScalarType::Double)
    } else if same_text(name, "float") {
        Some(ScalarType::Float)
    } else if same_text(name, "bool") {
        Some(ScalarType::Bool)
    } else if same_text(name, "string") {
        Some(ScalarType::String)
    } else if same_text(name, "bytes") {
        Some(ScalarType::Bytes)
    } else {
        None
    }
}

/// What a word of the annotation of a field says: that the field is
/// repeated, or what its type is.
pub enum FieldWord {
    Repeated,
    Type(ProtoType),
}

/// What a word means in the annotation of a field: a scalar type, a oneof,
/// or that the field is repeated. An embedded message is not declared as a
/// field of its own.
pub open spec fn field_word(name: Seq<char>) -> Option<FieldWord> {
    match scalar_type_named(name) {
        Some(ty) => Some(FieldWord::Type(ProtoType::Scalar(ty))),
        None => if name == "oneof"@ {
            Some(FieldWord::Type(ProtoType::Oneof))
        } else if name == "repeated"@ {
            Some(FieldWord::Repeated)
        } else {
            None
        },
    }
}

/// What a word means in the annotation of a variant: a scalar type, a
/// oneof, or an embedded message. A variant is never repeated.
pub open spec fn variant_word(name: Seq<char>) -> Option<ProtoType> {
    match scalar_type_named(name) {
        Some(ty) => Some(ProtoType::Scalar(ty)),
        None => if name == "oneof"@ {
            Some(ProtoType::Oneof)
        } else if name == "message"@ {
            Some(ProtoType::Message)
        } else {
            None
        },
    }
}

// ---------------------------------------------------------------------------
// Declarations
// ---------------------------------------------------------------------------

/// What has been read of a declaration.
pub struct Declared {
    pub numbers: Seq<u32>,
    pub proto_type: Option<ProtoType>,
    pub repeated: bool,
}

/// A declaration of which nothing has been read: the field number `0`, no
/// type, not repeated.
pub open spec fn undeclared() -> Declared {
    Declared { numbers: seq![0u32], proto_type: None, repeated: false }
}

/// What one item adds to the declaration of a field.
pub open spec fn field_item(state: Declared, item: Attribute) -> Result<Declared, SchemaError> {
    match item {
        Attribute::Number(n) => Ok(Declared { numbers: seq![n], ..state }),
        Attribute::Numbers(text) => match numbers_of(text.spec_bytes()) {
            Some(numbers) => Ok(Declared { numbers, ..state }),
            None => Err(SchemaError::InvalidNumbers),
        },
        Attribute::Word(word) => match field_word(word@) {
            Some(FieldWord::Repeated) => Ok(Declared { repeated: true, ..state }),
            Some(FieldWord::Type(ty)) => Ok(Declared { proto_type: Some(ty), ..state }),
            None => Err(SchemaError::UnknownFieldType),
        },
        Attribute::Other => Err(SchemaError::InvalidAttribute),
    }
}

/// What one item adds to the declaration of a variant.
pub open spec fn variant_item(state: Declared, item: Attribute) -> Result<Declared, SchemaError> {
    match item {
        Attribute::Number(n) => Ok(Declared { numbers: seq![n], ..state }),
        Attribute::Numbers(text) => match numbers_of(text.spec_bytes()) {
            Some(numbers) => Ok(Declared { numbers, ..state }),
            None => Err(SchemaError::InvalidNumbers),
        },
        Attribute::Word(word) => match variant_word(word@) {
            Some(ty) => Ok(Declared { proto_type: Some(ty), ..state }),
            None => Err(SchemaError::UnknownFieldType),
        },
        Attribute::Other => Err(SchemaError::InvalidAttribute),
    }
}

/// What the items of the annotation of a field, from index `i` on, make
/// of a declaration. The first item that cannot be read is the error.
pub open spec fn field_items(state: Declared, items: Seq<Attribute>, i: nat) -> Result<Declared, SchemaError>
    decreases items.len() - i,
{
    if i >= items.len() {
        Ok(state)
    } else {
        match field_item(state, items[i as int]) {
            Ok(next) => field_items(next, items, i + 1),
            Err(e) => Err(e),
        }
    }
}

/// What the items of the annotation of a variant, from index `i` on, make
/// of a declaration.
pub open spec fn variant_items(state: Declared, items: Seq<Attribute>, i: nat) -> Result<
    Declared,
    SchemaError,
>
    decreases items.len() - i,
{
    if i >= items.len() {
        Ok(state)
    } else {
        match variant_item(state, items[i as int]) {
            Ok(next) => variant_items(next, items, i + 1),
            Err(e) => Err(e),
        }
    }
}

impl ParsedField {
    /// What has been read, as contracts see it.
    pub open spec fn declared(&self) -> Declared {
        Declared { numbers: self.field_numbers@, proto_type: self.proto_type, repeated: self.repeated }
    }

    /// Reads the annotation of a field.
    pub fn parse(field_name: &'static str, attributes: &[Attribute]) -> (r: Result<ParsedField, SchemaError>)
        ensures
            match field_items(undeclared(), attributes@, 0) {
                Ok(state) => r matches Ok(p) && p.field_name == field_name && p.declared() == state,
                Err(e) => r matches Err(f) && f == e,
            },
    {
        let mut result = ParsedField {
            field_name,
            field_numbers: vec![0],
            proto_type: None,
            repeated: false,
        };
        assert(result.field_numbers@ == seq![0u32]);
        let mut i: usize = 0;
        while i < attributes.len()
            invariant
                i <= attributes@.len(),
                result.field_name == field_name,
                field_items(undeclared(), attributes@, 0) == field_items(
                    result.declared(),
                    attributes@,
                    i as nat,
                ),
            decreases attributes@.len() - i,
        {
            match attributes[i] {
                Attribute::Number(n) => {
                    result.field_numbers = vec![n];
                    assert(result.field_numbers@ == seq![n]);
                },
                Attribute::Numbers(text) => match parse_numbers(text) {
                    Ok(numbers) => {
                        result.field_numbers = numbers;
                    },
                    Err(e) => {
                        return Err(e);
                    },
                },
                Attribute::Word(word) => match scalar_type_for(word) {
                    Some(ty) => {
                        result.proto_type = Some(ProtoType::Scalar(ty));
                    },
                    None => if same_text(word, "oneof") {
                        result.proto_type = Some(ProtoType::Oneof);
                    } else if same_text(word, "repeated") {
                        result.repeated = true;
                    } else {
                        return Err(SchemaError::UnknownFieldType);
                    },
                },
                Attribute::Other => {
                    return Err(SchemaError::InvalidAttribute);
                },
            }
            i += 1;
        }
        Ok(result)
    }
}

impl ParsedVariant {
    /// What has been read, as contracts see it.
    pub open spec fn declared(&self) -> Declared {
        Declared { numbers: self.field_numbers@, proto_type: self.proto_type, repeated: false }
    }

    /// Reads the annotation of a variant of a oneof.
    pub fn parse(field_name: &'static str, attributes: &[Attribute]) -> (r: Result<
        ParsedVariant,
        SchemaError,
    >)
        ensures
            match variant_items(undeclared(), attributes@, 0) {
                Ok(state) => r matches Ok(p) && p.field_name == field_name && p.declared() == state,
                Err(e) => r matches Err(f) && f == e,
            },
    {
        let mut result = ParsedVariant { field_name, field_numbers: vec![0], proto_type: None };
        assert(result.field_numbers@ == seq![0u32]);
        let mut i: usize = 0;
        while i < attributes.len()
            invariant
                i <= attributes@.len(),
                result.field_name == field_name,
                variant_items(undeclared(), attributes@, 0) == variant_items(
                    result.declared(),
                    attributes@,
                    i as nat,
                ),
            decreases attributes@.len() - i,
        {
            match attributes[i] {
                Attribute::Number(n) => {
                    result.field_numbers = vec![n];
                    assert(result.field_numbers@ == seq![n]);
                },
                Attribute::Numbers(text) => match parse_numbers(text) {
                    Ok(numbers) => {
                        result.field_numbers = numbers;
                    },
                    Err(e) => {
                        return Err(e);
                    },
                },
                Attribute::Word(word) => match scalar_type_for(word) {
                    Some(ty) => {
                        result.proto_type = Some(ProtoType::Scalar(ty));
                    },
                    None => if same_text(word, "oneof") {
                        result.proto_type = Some(ProtoType::Oneof);
                    } else if same_text(word, "message") {
                        result.proto_type = Some(ProtoType::Message);
                    } else {
                        return Err(SchemaError::UnknownFieldType);
                    },
                },
                Attribute::Other => {
                    return Err(SchemaError::InvalidAttribute);
                },
            }
            i += 1;
        }
        Ok(result)
    }
}

impl ParsedField {
    /// Makes the descriptor of the field from its declaration and from what
    /// lies inside it. The declaration has to name a type, and the inside
    /// has to be of that type: bounds for a scalar, variants for a oneof.
    pub fn descriptor(self, shape: Shape) -> (r: Result<FieldDescriptor, SchemaError>)
        ensures
            match (self.proto_type, shape) {
                (Some(ProtoType::Scalar(ty)), Shape::Scalar { capacity, max_count }) => r matches Ok(d)
                    && d.name == self.field_name && d.numbers == self.field_numbers && d.kind
                    == FieldKind::Scalar(ty) && d.repeated == self.repeated && d.capacity == capacity
                    && d.max_count == max_count,
                (Some(ProtoType::Oneof), Shape::Oneof(variants)) => r matches Ok(d) && d.name
                    == self.field_name && d.numbers == self.field_numbers && d.kind == FieldKind::Oneof(
                    variants,
                ) && d.repeated == self.repeated && d.capacity == 0 && d.max_count == 0,
                (Some(_), _) => r matches Err(e) && e == SchemaError::WrongShape,
                (None, _) => r matches Err(e) && e == SchemaError::UnknownFieldType,
            },
    {
        match (self.proto_type, shape) {
            (Some(ProtoType::Scalar(ty)), Shape::Scalar { capacity, max_count }) => Ok(
                FieldDescriptor {
                    name: self.field_name,
                    numbers: self.field_numbers,
                    kind: FieldKind::Scalar(ty),
                    repeated: self.repeated,
                    capacity,
                    max_count,
                },
            ),
            (Some(ProtoType::Oneof), Shape::Oneof(variants)) => Ok(
                FieldDescriptor {
                    name: self.field_name,
                    numbers: self.field_numbers,
                    kind: FieldKind::Oneof(variants),
                    repeated: self.repeated,
                    capacity: 0,
                    max_count: 0,
                },
            ),
            (Some(_), _) => Err(SchemaError::WrongShape),
            (None, _) => Err(SchemaError::UnknownFieldType),
        }
    }
}

impl ParsedVariant {
    /// Makes the variant from its declaration and from what lies inside
    /// it. The declaration has to name a type other than a oneof, and the
    /// inside has to be of that type: bounds for a scalar, a schema for an
    /// embedded message.
    pub fn variant(self, shape: Shape) -> (r: Result<Variant, SchemaError>)
        ensures
            match (self.proto_type, shape) {
                (Some(ProtoType::Scalar(ty)), Shape::Scalar { capacity, max_count }) => r matches Ok(v)
                    && v.name == self.field_name && v.numbers == self.field_numbers && v.kind
                    == VariantKind::Scalar(ty) && v.capacity == capacity,
                (Some(ProtoType::Message), Shape::Message(schema)) => r matches Ok(v) && v.name
                    == self.field_name && v.numbers == self.field_numbers && v.kind == VariantKind::Message(
                    schema,
                ) && v.capacity == 0,
                (Some(ProtoType::Oneof), _) => r matches Err(e) && e == SchemaError::NestedOneof,
                (Some(_), _) => r matches Err(e) && e == SchemaError::WrongShape,
                (None, _) => r matches Err(e) && e == SchemaError::UnknownFieldType,
            },
    {
        match (self.proto_type, shape) {
            (Some(ProtoType::Scalar(ty)), Shape::Scalar { capacity, max_count: _ }) => Ok(
                Variant {
                    name: self.field_name,
                    numbers: self.field_numbers,
                    kind: VariantKind::Scalar(ty),
                    capacity,
                },
            ),
            (Some(ProtoType::Message), Shape::Message(schema)) => Ok(
                Variant {
                    name: self.field_name,
                    numbers: self.field_numbers,
                    kind: VariantKind::Message(schema),
                    capacity: 0,
                },
            ),
            (Some(ProtoType::Oneof), _) => Err(SchemaError::NestedOneof),
            (Some(_), _) => Err(SchemaError::WrongShape),
            (None, _) => Err(SchemaError::UnknownFieldType),
        }
    }
}

} // verus!
