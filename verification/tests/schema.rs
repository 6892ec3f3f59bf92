use twpb::attributes::{
    parse_numbers, same_text, scalar_type_for, Attribute, ParsedField, ParsedVariant, ProtoType,
    SchemaError, Shape,
};
use twpb::schema::{
    answers_to, are_among, are_disjoint, is_numbered, validate_variants, variant_for, FieldDescriptor,
    FieldKind, MessageSchema, ScalarType, Variant, VariantKind,
};
use twpb::wire_types;
use twpb::wire_types::for_proto_type;

fn scalar(name: &'static str, numbers: Vec<u32>, ty: ScalarType) -> FieldDescriptor {
    FieldDescriptor { name, numbers, kind: FieldKind::Scalar(ty), repeated: false, capacity: 10, max_count: 0 }
}

fn variant(name: &'static str, numbers: Vec<u32>) -> Variant {
    Variant { name, numbers, kind: VariantKind::Scalar(ScalarType::Bool), capacity: 0 }
}

fn oneof(name: &'static str, numbers: Vec<u32>, variants: Vec<Variant>) -> FieldDescriptor {
    FieldDescriptor { name, numbers, kind: FieldKind::Oneof(variants), repeated: false, capacity: 0, max_count: 0 }
}

fn nested(name: &'static str, numbers: Vec<u32>, schema: MessageSchema) -> FieldDescriptor {
    FieldDescriptor { name, numbers, kind: FieldKind::Message(schema), repeated: false, capacity: 0, max_count: 0 }
}

#[test]
fn wire_types_are_those_of_the_format() {
    assert_eq!(wire_types::VARINT, 0);
    assert_eq!(wire_types::B64, 1);
    assert_eq!(wire_types::LENGTHDELIMITED, 2);
    assert_eq!(wire_types::STARTGROUP, 3);
    assert_eq!(wire_types::ENDGROUP, 4);
    assert_eq!(wire_types::B32, 5);
}

#[test]
fn wire_type_of_each_named_type() {
    for name in ["int32", "int64", "uint32", "uint64", "sint32", "sint64", "bool", "enum"] {
        assert_eq!(for_proto_type(name), Some(wire_types::VARINT));
    }
    for name in ["fixed64", "sfixed64", "double"] {
        assert_eq!(for_proto_type(name), Some(wire_types::B64));
    }
    for name in ["string", "bytes", "message"] {
        assert_eq!(for_proto_type(name), Some(wire_types::LENGTHDELIMITED));
    }
    for name in ["fixed32", "sfixed32", "float"] {
        assert_eq!(for_proto_type(name), Some(wire_types::B32));
    }
    for name in ["", "int", "Int32", "int32 ", "oneof", "repeated", "group"] {
        assert_eq!(for_proto_type(name), None);
    }
}

#[test]
fn wire_type_of_each_scalar_type_agrees_with_its_name() {
    let cases = [
        ("int32", ScalarType::Int32),
        ("int64", ScalarType::Int64),
        ("uint32", ScalarType::Uint32),
        ("uint64", ScalarType::Uint64),
        ("sint32", ScalarType::Sint32),
        ("sint64", ScalarType::Sint64),
        ("fixed32", ScalarType::Fixed32),
        ("fixed64", ScalarType::Fixed64),
        ("sfixed32", ScalarType::Sfixed32),
        ("sfixed64", ScalarType::Sfixed64),
        ("double", ScalarType::Double),
        ("float", ScalarType::Float),
        ("bool", ScalarType::Bool),
        ("string", ScalarType::String),
        ("bytes", ScalarType::Bytes),
    ];
    for (name, ty) in cases {
        assert_eq!(scalar_type_for(name), Some(ty));
        assert_eq!(for_proto_type(name), Some(ty.wire()));
        assert_eq!(ty.is_packable(), name != "string" && name != "bytes");
    }
    assert_eq!(scalar_type_for("message"), None);
    assert_eq!(scalar_type_for("oneof"), None);
}

#[test]
fn texts_are_the_same_when_their_bytes_are() {
    assert!(same_text("", ""));
    assert!(same_text("int32", "int32"));
    assert!(!same_text("int32", "int64"));
    assert!(!same_text("int32", "int3"));
    assert!(same_text("🐉", "🐉"));
}

#[test]
fn numbers_and_ranges_are_read() {
    assert_eq!(parse_numbers("4").unwrap(), vec![4]);
    assert_eq!(parse_numbers("1-3").unwrap(), vec![1, 2, 3]);
    assert_eq!(parse_numbers("1-2").unwrap(), vec![1, 2]);
    assert_eq!(parse_numbers("1-3;7;10-11").unwrap(), vec![1, 2, 3, 7, 10, 11]);
    assert_eq!(parse_numbers("5-5").unwrap(), vec![5]);
    assert_eq!(parse_numbers("5-4").unwrap(), Vec::<u32>::new());
    assert_eq!(parse_numbers("+7").unwrap(), vec![7]);
    assert_eq!(parse_numbers("007").unwrap(), vec![7]);
    assert_eq!(parse_numbers("4294967295").unwrap(), vec![u32::MAX]);
    assert_eq!(parse_numbers("4294967294-4294967295").unwrap(), vec![u32::MAX - 1, u32::MAX]);
    assert_eq!(parse_numbers("0").unwrap(), vec![0]);
}

#[test]
fn numbers_that_are_none_are_refused() {
    for text in [
        "", ";", "1;", ";1", "1;;2", "-", "1-", "-1", "1--2", "1-2-3", "a", "1a", " 1", "1 ", "+", "++1", "1.5",
        "4294967296", "99999999999999999999", "1-4294967296", "0x10",
    ] {
        assert_eq!(parse_numbers(text).unwrap_err(), SchemaError::InvalidNumbers, "{:?}", text);
    }
}

#[test]
fn field_declaration_is_read() {
    let parsed = ParsedField::parse("serial", &[Attribute::Word("string"), Attribute::Number(1)]).unwrap();
    assert_eq!(
        parsed,
        ParsedField {
            field_name: "serial",
            field_numbers: vec![1],
            proto_type: Some(ProtoType::Scalar(ScalarType::String)),
            repeated: false,
        }
    );
    let parsed = ParsedField::parse(
        "int32",
        &[Attribute::Word("int32"), Attribute::Word("repeated"), Attribute::Number(1)],
    )
    .unwrap();
    assert_eq!(parsed.proto_type, Some(ProtoType::Scalar(ScalarType::Int32)));
    assert!(parsed.repeated);
    let parsed = ParsedField::parse("content", &[Attribute::Word("oneof"), Attribute::Numbers("1-3")]).unwrap();
    assert_eq!(parsed.proto_type, Some(ProtoType::Oneof));
    assert_eq!(parsed.field_numbers, vec![1, 2, 3]);
    let parsed = ParsedField::parse("product", &[Attribute::Word("string"), Attribute::Numbers("4")]).unwrap();
    assert_eq!(parsed.field_numbers, vec![4]);
}

#[test]
fn field_declaration_without_items_has_number_zero_and_no_type() {
    let parsed = ParsedField::parse("x", &[]).unwrap();
    assert_eq!(
        parsed,
        ParsedField { field_name: "x", field_numbers: vec![0], proto_type: None, repeated: false }
    );
}

#[test]
fn last_item_of_a_kind_counts() {
    let parsed = ParsedField::parse(
        "x",
        &[
            Attribute::Number(1),
            Attribute::Word("int32"),
            Attribute::Numbers("2;3"),
            Attribute::Word("bool"),
            Attribute::Number(9),
        ],
    )
    .unwrap();
    assert_eq!(parsed.field_numbers, vec![9]);
    assert_eq!(parsed.proto_type, Some(ProtoType::Scalar(ScalarType::Bool)));
}

#[test]
fn field_declaration_that_cannot_be_read_is_refused() {
    assert_eq!(
        ParsedField::parse("x", &[Attribute::Word("message")]).unwrap_err(),
        SchemaError::UnknownFieldType
    );
    assert_eq!(
        ParsedField::parse("x", &[Attribute::Word("int33")]).unwrap_err(),
        SchemaError::UnknownFieldType
    );
    assert_eq!(
        ParsedField::parse("x", &[Attribute::Numbers("1-")]).unwrap_err(),
        SchemaError::InvalidNumbers
    );
    assert_eq!(
        ParsedField::parse("x", &[Attribute::Number(1), Attribute::Other]).unwrap_err(),
        SchemaError::InvalidAttribute
    );
    // the first item that cannot be read is the error
    assert_eq!(
        ParsedField::parse("x", &[Attribute::Other, Attribute::Word("int33")]).unwrap_err(),
        SchemaError::InvalidAttribute
    );
}

#[test]
fn variant_declaration_is_read() {
    let parsed = ParsedVariant::parse("Ss", &[Attribute::Word("message"), Attribute::Number(1)]).unwrap();
    assert_eq!(
        parsed,
        ParsedVariant { field_name: "Ss", field_numbers: vec![1], proto_type: Some(ProtoType::Message) }
    );
    let parsed = ParsedVariant::parse("Test", &[Attribute::Word("string"), Attribute::Number(3)]).unwrap();
    assert_eq!(parsed.proto_type, Some(ProtoType::Scalar(ScalarType::String)));
    assert_eq!(
        ParsedVariant::parse("x", &[Attribute::Word("repeated")]).unwrap_err(),
        SchemaError::UnknownFieldType
    );
    assert_eq!(
        ParsedVariant::parse("x", &[Attribute::Numbers("")]).unwrap_err(),
        SchemaError::InvalidNumbers
    );
    assert_eq!(ParsedVariant::parse("x", &[Attribute::Other]).unwrap_err(), SchemaError::InvalidAttribute);
}

#[test]
fn first_field_that_answers_is_found() {
    let schema = MessageSchema {
        fields: vec![
            scalar("a", vec![1], ScalarType::Bool),
            scalar("b", vec![2, 3], ScalarType::Bool),
            scalar("c", vec![3, 4], ScalarType::Bool),
        ],
    };
    assert_eq!(schema.field_for(1), Some(0));
    assert_eq!(schema.field_for(2), Some(1));
    assert_eq!(schema.field_for(3), Some(1));
    assert_eq!(schema.field_for(4), Some(2));
    assert_eq!(schema.field_for(5), None);
    let variants = vec![variant("x", vec![7]), variant("y", vec![8, 7])];
    assert_eq!(variant_for(&variants, 7), Some(0));
    assert_eq!(variant_for(&variants, 8), Some(1));
    assert_eq!(variant_for(&variants, 9), None);
    assert!(answers_to(&vec![1, 2, 3], 2));
    assert!(!answers_to(&vec![1, 2, 3], 4));
    assert!(!answers_to(&vec![], 0));
}

#[test]
fn field_numbers_are_from_one_to_the_largest_of_a_tag() {
    assert!(is_numbered(&vec![1]));
    assert!(is_numbered(&vec![0x1FFF_FFFF, 1]));
    assert!(!is_numbered(&vec![]));
    assert!(!is_numbered(&vec![0]));
    assert!(!is_numbered(&vec![1, 0x2000_0000]));
    assert!(are_disjoint(&vec![1, 2], &vec![3, 4]));
    assert!(are_disjoint(&vec![], &vec![3, 4]));
    assert!(!are_disjoint(&vec![1, 2], &vec![2, 3]));
    assert!(are_among(&vec![1, 2], &vec![2, 1, 3]));
    assert!(are_among(&vec![], &vec![]));
    assert!(!are_among(&vec![1, 4], &vec![1, 2, 3]));
}

#[test]
fn well_formed_schemas_are_told_from_others() {
    let good = MessageSchema {
        fields: vec![
            oneof("content", vec![1, 2, 3], vec![variant("a", vec![1]), variant("b", vec![3])]),
            scalar("else", vec![5], ScalarType::String),
            nested("inner", vec![6], MessageSchema { fields: vec![scalar("a", vec![1], ScalarType::Bool)] }),
        ],
    };
    assert!(good.validate());
    assert!(MessageSchema { fields: vec![] }.validate());

    // two fields with one number
    let overlapping = MessageSchema {
        fields: vec![scalar("a", vec![1, 2], ScalarType::Bool), scalar("b", vec![2], ScalarType::Bool)],
    };
    assert!(!overlapping.validate());
    // a field without a number
    assert!(!MessageSchema { fields: vec![scalar("a", vec![], ScalarType::Bool)] }.validate());
    // the number zero
    assert!(!MessageSchema { fields: vec![scalar("a", vec![0], ScalarType::Bool)] }.validate());
    // a number that does not fit a tag
    assert!(!MessageSchema { fields: vec![scalar("a", vec![0x2000_0000], ScalarType::Bool)] }.validate());
    // a variant under a number that is not one of the oneof
    let stray =
        MessageSchema { fields: vec![oneof("content", vec![1, 2], vec![variant("a", vec![3])])] };
    assert!(!stray.validate());
    // two variants with one number
    let twins = MessageSchema {
        fields: vec![oneof("content", vec![1, 2], vec![variant("a", vec![1]), variant("b", vec![1])])],
    };
    assert!(!twins.validate());
    // an embedded schema that is not well formed
    let deep = MessageSchema { fields: vec![nested("inner", vec![1], overlapping)] };
    assert!(!deep.validate());
    assert!(validate_variants(&vec![variant("a", vec![1])], &vec![1]));
    assert!(!validate_variants(&vec![variant("a", vec![])], &vec![1]));
}

#[test]
fn descriptor_is_made_of_a_declaration_and_its_inside() {
    let parsed = ParsedField::parse("serial", &[Attribute::Word("string"), Attribute::Number(1)]).unwrap();
    let d = parsed.descriptor(Shape::Scalar { capacity: 10, max_count: 0 }).unwrap();
    assert_eq!(
        d,
        FieldDescriptor {
            name: "serial",
            numbers: vec![1],
            kind: FieldKind::Scalar(ScalarType::String),
            repeated: false,
            capacity: 10,
            max_count: 0,
        }
    );
    let parsed =
        ParsedField::parse("flags", &[Attribute::Word("bool"), Attribute::Word("repeated"), Attribute::Number(13)])
            .unwrap();
    let d = parsed.descriptor(Shape::Scalar { capacity: 0, max_count: 10 }).unwrap();
    assert!(d.repeated);
    assert_eq!(d.max_count, 10);
    let parsed = ParsedField::parse("content", &[Attribute::Word("oneof"), Attribute::Numbers("1-3")]).unwrap();
    let d = parsed.descriptor(Shape::Oneof(vec![variant("a", vec![1])])).unwrap();
    assert_eq!(d.kind, FieldKind::Oneof(vec![variant("a", vec![1])]));
    assert_eq!(d.numbers, vec![1, 2, 3]);
}

#[test]
fn descriptor_needs_a_type_and_an_inside_of_that_type() {
    let untyped = ParsedField::parse("x", &[Attribute::Number(1)]).unwrap();
    assert_eq!(
        untyped.descriptor(Shape::Scalar { capacity: 0, max_count: 0 }).unwrap_err(),
        SchemaError::UnknownFieldType
    );
    let scalar = ParsedField::parse("x", &[Attribute::Word("int32")]).unwrap();
    assert_eq!(scalar.descriptor(Shape::Oneof(vec![])).unwrap_err(), SchemaError::WrongShape);
    let oneof = ParsedField::parse("x", &[Attribute::Word("oneof")]).unwrap();
    assert_eq!(
        oneof.descriptor(Shape::Scalar { capacity: 0, max_count: 0 }).unwrap_err(),
        SchemaError::WrongShape
    );
}

#[test]
fn variant_is_made_of_a_declaration_and_its_inside() {
    let inner = MessageSchema { fields: vec![scalar("a", vec![1], ScalarType::Bool)] };
    let parsed = ParsedVariant::parse("Content::Ss", &[Attribute::Word("message"), Attribute::Number(1)]).unwrap();
    let v = parsed.variant(Shape::Message(inner)).unwrap();
    assert_eq!(v.name, "Content::Ss");
    assert_eq!(v.numbers, vec![1]);
    assert_eq!(
        v.kind,
        VariantKind::Message(MessageSchema { fields: vec![scalar("a", vec![1], ScalarType::Bool)] })
    );
    let parsed = ParsedVariant::parse("Content::Test", &[Attribute::Word("string"), Attribute::Number(3)]).unwrap();
    let v = parsed.variant(Shape::Scalar { capacity: 10, max_count: 0 }).unwrap();
    assert_eq!(v.kind, VariantKind::Scalar(ScalarType::String));
    assert_eq!(v.capacity, 10);
}

#[test]
fn variant_cannot_be_a_oneof_itself() {
    let nested_oneof = ParsedVariant::parse("x", &[Attribute::Word("oneof")]).unwrap();
    assert_eq!(nested_oneof.variant(Shape::Oneof(vec![])).unwrap_err(), SchemaError::NestedOneof);
    let untyped = ParsedVariant::parse("x", &[]).unwrap();
    assert_eq!(
        untyped.variant(Shape::Scalar { capacity: 0, max_count: 0 }).unwrap_err(),
        SchemaError::UnknownFieldType
    );
    let message = ParsedVariant::parse("x", &[Attribute::Word("message")]).unwrap();
    assert_eq!(
        message.variant(Shape::Scalar { capacity: 0, max_count: 0 }).unwrap_err(),
        SchemaError::WrongShape
    );
}
