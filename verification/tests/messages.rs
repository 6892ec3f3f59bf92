use twpb::engine::{decode, decode_from, encode, try_encode};
use twpb::iterators::FixedBuffer;
use twpb::message::{Chosen, FieldValue, Message, Payload, Value};
use twpb::schema::{FieldDescriptor, FieldKind, MessageSchema, ScalarType, Variant, VariantKind};
use twpb::traits::WriterError;
use twpb::{DecodeError, LimitedIterator, Reader};

// The schemas of the messages that the tests send and read.

fn scalar(name: &'static str, number: u32, ty: ScalarType, capacity: usize) -> FieldDescriptor {
    FieldDescriptor {
        name,
        numbers: vec![number],
        kind: FieldKind::Scalar(ty),
        repeated: false,
        capacity,
        max_count: 0,
    }
}

fn repeated(name: &'static str, number: u32, ty: ScalarType, capacity: usize) -> FieldDescriptor {
    FieldDescriptor {
        name,
        numbers: vec![number],
        kind: FieldKind::Scalar(ty),
        repeated: true,
        capacity,
        max_count: 10,
    }
}

fn oneof(name: &'static str, numbers: Vec<u32>, variants: Vec<Variant>) -> FieldDescriptor {
    FieldDescriptor {
        name,
        numbers,
        kind: FieldKind::Oneof(variants),
        repeated: false,
        capacity: 0,
        max_count: 0,
    }
}

fn message_variant(name: &'static str, number: u32, schema: MessageSchema) -> Variant {
    Variant { name, numbers: vec![number], kind: VariantKind::Message(schema), capacity: 0 }
}

fn scalar_variant(name: &'static str, number: u32, ty: ScalarType, capacity: usize) -> Variant {
    Variant { name, numbers: vec![number], kind: VariantKind::Scalar(ty), capacity }
}

fn simple_types_schema() -> MessageSchema {
    MessageSchema {
        fields: vec![
            scalar("int32", 1, ScalarType::Int32, 0),
            scalar("int64", 2, ScalarType::Int64, 0),
            scalar("uint32", 3, ScalarType::Uint32, 0),
            scalar("uint64", 4, ScalarType::Uint64, 0),
            scalar("sint32", 5, ScalarType::Sint32, 0),
            scalar("sint64", 6, ScalarType::Sint64, 0),
            scalar("fixed32", 7, ScalarType::Fixed32, 0),
            scalar("fixed64", 8, ScalarType::Fixed64, 0),
            scalar("sfixed32", 9, ScalarType::Sfixed32, 0),
            scalar("sfixed64", 10, ScalarType::Sfixed64, 0),
            scalar("double", 11, ScalarType::Double, 0),
            scalar("float", 12, ScalarType::Float, 0),
            scalar("boolean", 13, ScalarType::Bool, 0),
            scalar("string", 14, ScalarType::String, 10),
            scalar("bytes", 15, ScalarType::Bytes, 10),
        ],
    }
}

fn simple_types_value() -> Message {
    Message {
        fields: vec![
            FieldValue::Scalar(Value::Int32(-69)),
            FieldValue::Scalar(Value::Int64(-9223372036854775808)),
            FieldValue::Scalar(Value::Uint32(42)),
            FieldValue::Scalar(Value::Uint64(1)),
            FieldValue::Scalar(Value::Sint32(-69)),
            FieldValue::Scalar(Value::Sint64(69)),
            FieldValue::Scalar(Value::Fixed32(u32::MAX)),
            FieldValue::Scalar(Value::Fixed64(42)),
            FieldValue::Scalar(Value::Sfixed32(i32::MAX)),
            FieldValue::Scalar(Value::Sfixed64(i64::MIN + 1)),
            FieldValue::Scalar(Value::Double((1.0 as f64).to_bits())),
            FieldValue::Scalar(Value::Float((3.1415926535 as f32).to_bits())),
            FieldValue::Scalar(Value::Bool(true)),
            FieldValue::Scalar(Value::String(String::from("🐉"))),
            FieldValue::Scalar(Value::Bytes(vec!['A' as u8, 'S' as u8, 'D' as u8, 'F' as u8])),
        ],
    }
}

fn simple_types_bytes() -> Vec<u8> {
    vec![
        0x08, 0xBB, 0xFF, 0xFF, 0xFF, 0xFF, 0xFF, 0xFF, 0xFF, 0xFF, 0x01, 0x10, 0x80, 0x80, 0x80, 0x80, 0x80,
        0x80, 0x80, 0x80, 0x80, 0x01, 0x18, 0x2A, 0x20, 0x01, 0x28, 0x89, 0x01, 0x30, 0x8A, 0x01, 0x3D, 0xFF,
        0xFF, 0xFF, 0xFF, 0x41, 0x2A, 0x00, 0x00, 0x00, 0x00, 0x00, 0x00, 0x00, 0x4D, 0xFF, 0xFF, 0xFF, 0x7F,
        0x51, 0x01, 0x00, 0x00, 0x00, 0x00, 0x00, 0x00, 0x80, 0x59, 0x00, 0x00, 0x00, 0x00, 0x00, 0x00, 0xF0,
        0x3F, 0x65, 0xDB, 0x0F, 0x49, 0x40, 0x68, 0x01, 0x72, 0x04, 0xF0, 0x9F, 0x90, 0x89, 0x7A, 0x04, 0x41,
        0x53, 0x44, 0x46,
    ]
}

fn repeated_types_schema() -> MessageSchema {
    MessageSchema {
        fields: vec![
            repeated("int32", 1, ScalarType::Int32, 0),
            repeated("int64", 2, ScalarType::Int64, 0),
            repeated("uint32", 3, ScalarType::Uint32, 0),
            repeated("uint64", 4, ScalarType::Uint64, 0),
            repeated("sint32", 5, ScalarType::Sint32, 0),
            repeated("sint64", 6, ScalarType::Sint64, 0),
            repeated("fixed32", 7, ScalarType::Fixed32, 0),
            repeated("fixed64", 8, ScalarType::Fixed64, 0),
            repeated("sfixed32", 9, ScalarType::Sfixed32, 0),
            repeated("sfixed64", 10, ScalarType::Sfixed64, 0),
            repeated("double", 11, ScalarType::Double, 0),
            repeated("float", 12, ScalarType::Float, 0),
            repeated("boolean", 13, ScalarType::Bool, 0),
            repeated("string", 14, ScalarType::String, 10),
            repeated("bytes", 15, ScalarType::Bytes, 10),
            repeated("int32_notpacked", 16, ScalarType::Int32, 0),
        ],
    }
}

fn repeated_types_value() -> Message {
    Message {
        fields: vec![
            FieldValue::Repeated(vec![Value::Int32(4), Value::Int32(-300)]),
            FieldValue::Repeated(vec![Value::Int64(69), Value::Int64(-69)]),
            FieldValue::Repeated(vec![Value::Uint32(42), Value::Uint32(420)]),
            FieldValue::Repeated(vec![Value::Uint64(42), Value::Uint64(420)]),
            FieldValue::Repeated(vec![Value::Sint32(-69), Value::Sint32(69)]),
            FieldValue::Repeated(vec![Value::Sint64(69), Value::Sint64(-69)]),
            FieldValue::Repeated(vec![Value::Fixed32(u32::MAX), Value::Fixed32(1)]),
            FieldValue::Repeated(vec![Value::Fixed64(42), Value::Fixed64(u64::MAX)]),
            FieldValue::Repeated(vec![Value::Sfixed32(i32::MAX), Value::Sfixed32(-69)]),
            FieldValue::Repeated(vec![Value::Sfixed64(42), Value::Sfixed64(-42)]),
            FieldValue::Repeated(vec![
                Value::Double((1.0 as f64).to_bits()),
                Value::Double((3.1415926535 as f64).to_bits()),
            ]),
            FieldValue::Repeated(vec![
                Value::Float((3.1415926535 as f32).to_bits()),
                Value::Float((1.0 as f32).to_bits()),
            ]),
            FieldValue::Repeated(vec![Value::Bool(true), Value::Bool(false)]),
            FieldValue::Repeated(vec![
                Value::String(String::from("🐉")),
                Value::String(String::from("अरे")),
            ]),
            FieldValue::Repeated(vec![
                Value::Bytes(vec!['A' as u8, 'S' as u8, 'D' as u8, 'F' as u8]),
                Value::Bytes(vec!['A' as u8, 'B' as u8, 'C' as u8, 'D' as u8]),
            ]),
            FieldValue::Repeated(vec![Value::Int32(4), Value::Int32(-300)]),
        ],
    }
}

fn repeated_types_empty() -> Message {
    let mut fields = Vec::new();
    for _ in 0..16 {
        fields.push(FieldValue::Repeated(Vec::new()));
    }
    Message { fields }
}

// The unpacked form: every item under a tag of its own.
fn repeated_types_bytes() -> Vec<u8> {
    vec![
        0x08, 0x04, 0x08, 0xD4, 0xFD, 0xFF, 0xFF, 0xFF, 0xFF, 0xFF, 0xFF, 0xFF, 0x01, 0x10, 0x45, 0x10, 0xBB,
        0xFF, 0xFF, 0xFF, 0xFF, 0xFF, 0xFF, 0xFF, 0xFF, 0x01, 0x18, 0x2A, 0x18, 0xA4, 0x03, 0x20, 0x2A, 0x20,
        0xA4, 0x03, 0x28, 0x89, 0x01, 0x28, 0x8A, 0x01, 0x30, 0x8A, 0x01, 0x30, 0x89, 0x01, 0x3D, 0xFF, 0xFF,
        0xFF, 0xFF, 0x3D, 0x01, 0x00, 0x00, 0x00, 0x41, 0x2A, 0x00, 0x00, 0x00, 0x00, 0x00, 0x00, 0x00, 0x41,
        0xFF, 0xFF, 0xFF, 0xFF, 0xFF, 0xFF, 0xFF, 0xFF, 0x4D, 0xFF, 0xFF, 0xFF, 0x7F, 0x4D, 0xBB, 0xFF, 0xFF,
        0xFF, 0x51, 0x2A, 0x00, 0x00, 0x00, 0x00, 0x00, 0x00, 0x00, 0x51, 0xD6, 0xFF, 0xFF, 0xFF, 0xFF, 0xFF,
        0xFF, 0xFF, 0x59, 0x00, 0x00, 0x00, 0x00, 0x00, 0x00, 0xF0, 0x3F, 0x59, 0x44, 0x17, 0x41, 0x54, 0xFB,
        0x21, 0x09, 0x40, 0x65, 0xDB, 0x0F, 0x49, 0x40, 0x65, 0x00, 0x00, 0x80, 0x3F, 0x68, 0x01, 0x68, 0x00,
        0x72, 0x04, 0xF0, 0x9F, 0x90, 0x89, 0x72, 0x09, 0xE0, 0xA4, 0x85, 0xE0, 0xA4, 0xB0, 0xE0, 0xA5, 0x87,
        0x7A, 0x04, 0x41, 0x53, 0x44, 0x46, 0x7A, 0x04, 0x41, 0x42, 0x43, 0x44, 0x80, 0x01, 0x04, 0x80, 0x01,
        0xD4, 0xFD, 0xFF, 0xFF, 0xFF, 0xFF, 0xFF, 0xFF, 0xFF, 0x01,
    ]
}

// The same message as another implementation sends it: the numeric lists
// packed, each as one length-delimited run, the last list left unpacked.
fn repeated_types_packed_bytes() -> Vec<u8> {
    vec![
        0x0A, 0x0B, 0x04, 0xD4, 0xFD, 0xFF, 0xFF, 0xFF, 0xFF, 0xFF, 0xFF, 0xFF, 0x01, 0x12, 0x0B, 0x45, 0xBB,
        0xFF, 0xFF, 0xFF, 0xFF, 0xFF, 0xFF, 0xFF, 0xFF, 0x01, 0x1A, 0x03, 0x2A, 0xA4, 0x03, 0x22, 0x03, 0x2A,
        0xA4, 0x03, 0x2A, 0x04, 0x89, 0x01, 0x8A, 0x01, 0x32, 0x04, 0x8A, 0x01, 0x89, 0x01, 0x3A, 0x08, 0xFF,
        0xFF, 0xFF, 0xFF, 0x01, 0x00, 0x00, 0x00, 0x42, 0x10, 0x2A, 0x00, 0x00, 0x00, 0x00, 0x00, 0x00, 0x00,
        0xFF, 0xFF, 0xFF, 0xFF, 0xFF, 0xFF, 0xFF, 0xFF, 0x4A, 0x08, 0xFF, 0xFF, 0xFF, 0x7F, 0xBB, 0xFF, 0xFF,
        0xFF, 0x52, 0x10, 0x2A, 0x00, 0x00, 0x00, 0x00, 0x00, 0x00, 0x00, 0xD6, 0xFF, 0xFF, 0xFF, 0xFF, 0xFF,
        0xFF, 0xFF, 0x5A, 0x10, 0x00, 0x00, 0x00, 0x00, 0x00, 0x00, 0xF0, 0x3F, 0x44, 0x17, 0x41, 0x54, 0xFB,
        0x21, 0x09, 0x40, 0x62, 0x08, 0xDB, 0x0F, 0x49, 0x40, 0x00, 0x00, 0x80, 0x3F, 0x6A, 0x02, 0x01, 0x00,
        0x72, 0x04, 0xF0, 0x9F, 0x90, 0x89, 0x72, 0x09, 0xE0, 0xA4, 0x85, 0xE0, 0xA4, 0xB0, 0xE0, 0xA5, 0x87,
        0x7A, 0x04, 0x41, 0x53, 0x44, 0x46, 0x7A, 0x04, 0x41, 0x42, 0x43, 0x44, 0x80, 0x01, 0x04, 0x80, 0x01,
        0xD4, 0xFD, 0xFF, 0xFF, 0xFF, 0xFF, 0xFF, 0xFF, 0xFF, 0x01,
    ]
}

fn simple_schema() -> MessageSchema {
    MessageSchema {
        fields: vec![
            scalar("serial", 1, ScalarType::String, 10),
            scalar("firmware_version", 2, ScalarType::String, 10),
            scalar("vendor", 3, ScalarType::String, 10),
            scalar("product", 4, ScalarType::String, 10),
        ],
    }
}

fn simple_value() -> Message {
    Message {
        fields: vec![
            FieldValue::Scalar(Value::String(String::from("serial"))),
            FieldValue::Scalar(Value::String(String::from("firmware"))),
            FieldValue::Scalar(Value::String(String::from("vendor"))),
            FieldValue::Scalar(Value::String(String::from("product"))),
        ],
    }
}

fn simple_bytes() -> Vec<u8> {
    let mut bytes = vec![0x0A, 0x06];
    bytes.extend_from_slice(b"serial");
    bytes.extend_from_slice(&[0x12, 0x08]);
    bytes.extend_from_slice(b"firmware");
    bytes.extend_from_slice(&[0x1A, 0x06]);
    bytes.extend_from_slice(b"vendor");
    bytes.extend_from_slice(&[0x22, 0x07]);
    bytes.extend_from_slice(b"product");
    bytes
}

fn embedded_schema() -> MessageSchema {
    MessageSchema {
        fields: vec![
            oneof(
                "content",
                vec![1, 2, 3],
                vec![
                    message_variant("Content::Ss", 1, simple_schema()),
                    scalar_variant("Content::Test", 3, ScalarType::String, 10),
                ],
            ),
            // A field after the oneof shows that the embedded message takes
            // the bytes that are its own and no more.
            scalar("something_else", 5, ScalarType::String, 20),
        ],
    }
}

fn empty_request_schema() -> MessageSchema {
    MessageSchema { fields: vec![] }
}

fn other_thing_schema() -> MessageSchema {
    MessageSchema { fields: vec![scalar("other", 1, ScalarType::String, 10)] }
}

fn request_schema() -> MessageSchema {
    MessageSchema {
        fields: vec![oneof(
            "request",
            vec![1, 2],
            vec![
                message_variant("Request::GetInfo", 1, empty_request_schema()),
                message_variant("Request::GetOtherThing", 2, empty_request_schema()),
            ],
        )],
    }
}

fn response_schema() -> MessageSchema {
    MessageSchema {
        fields: vec![oneof(
            "response",
            vec![1, 2],
            vec![
                message_variant("Response::Info", 1, simple_schema()),
                message_variant("Response::OtherThing", 2, other_thing_schema()),
            ],
        )],
    }
}

fn api_message_schema() -> MessageSchema {
    MessageSchema {
        fields: vec![oneof(
            "content",
            vec![1, 2],
            vec![
                message_variant("Content::V1Request", 1, request_schema()),
                message_variant("Content::V1Response", 2, response_schema()),
            ],
        )],
    }
}

// A request for information: a request, in an API message.
fn get_info_bytes() -> Vec<u8> {
    vec![0x0A, 0x02, 0x0A, 0x00]
}

const V1_REQUEST: usize = 0;
const GET_INFO: usize = 0;
const GET_OTHER_THING: usize = 1;

fn encode_to_vec(schema: &MessageSchema, message: &Message) -> Vec<u8> {
    let mut buffer = FixedBuffer::<1000>::new();
    let bytes_written = encode(schema, message, &mut buffer).unwrap();
    buffer.as_slice()[0..bytes_written].to_vec()
}

#[test]
fn alltypes_test_types() {
    // Bytes as another implementation sends them are read as the message.
    let dummydata = simple_types_bytes();
    let schema = simple_types_schema();

    let parsed = decode(&schema, &dummydata).unwrap();
    let expected = simple_types_value();
    assert_eq!(parsed, expected);

    // The message is written as the same bytes and read back from them.
    let mut dummydata = FixedBuffer::<1000>::new();
    let bytes_written = encode(&schema, &expected, &mut dummydata).unwrap();
    let expected_bytes = simple_types_bytes();
    assert_eq!(bytes_written, expected_bytes.len());
    assert_eq!(dummydata.as_slice()[0..bytes_written], expected_bytes[..]);
    let parsed = decode(&schema, &dummydata.as_slice()[0..bytes_written]).unwrap();
    assert_eq!(parsed, expected);
}

#[test]
fn test_types_repeated_decode() {
    let dummydata = repeated_types_packed_bytes();
    let schema = repeated_types_schema();

    let parsed = decode(&schema, &dummydata).unwrap();
    let expected = repeated_types_value();
    assert_eq!(parsed, expected);

    let mut dummydata = FixedBuffer::<1000>::new();
    let bytes_written = encode(&schema, &expected, &mut dummydata).unwrap();
    let expected_bytes = repeated_types_bytes();
    assert_eq!(bytes_written, expected_bytes.len());
    assert_eq!(dummydata.as_slice()[0..bytes_written], expected_bytes[..]);
    let parsed = decode(&schema, &dummydata.as_slice()[0..bytes_written]).unwrap();
    assert_eq!(parsed, expected);
}

#[test]
fn types_test_types() {
    let dummydata = simple_types_bytes();
    let mut view = LimitedIterator::over(&dummydata);
    let parsed = decode_from(&simple_types_schema(), &mut view).unwrap();
    assert_eq!(parsed, simple_types_value());
    assert_eq!(view.next(), None);
    println!("{:?}", parsed);
}

#[test]
fn test_types_repeated() {
    let dummydata = repeated_types_packed_bytes();
    let mut view = LimitedIterator::over(&dummydata);
    let parsed = decode_from(&repeated_types_schema(), &mut view).unwrap();
    assert_eq!(parsed, repeated_types_value());
    println!("{:?}", parsed);
}

#[test]
fn test_simple() {
    let dummydata = simple_bytes();
    let expected_len = dummydata.len();
    let schema = simple_schema();

    let parsed = decode(&schema, &dummydata).unwrap();
    let expected = simple_value();
    assert_eq!(parsed, expected);

    let mut dummydata = FixedBuffer::<1000>::new();
    let bytes_written = encode(&schema, &expected, &mut dummydata).unwrap();
    assert_eq!(bytes_written, expected_len);
    let parsed = decode(&schema, &dummydata.as_slice()[0..bytes_written]).unwrap();
    assert_eq!(parsed, expected);
}

#[test]
fn test_oneof_simple() {
    let mut dummydata = vec![0x1A, 0x07];
    dummydata.extend_from_slice(b"teststr");
    dummydata.extend_from_slice(&[0x2A, 0x00]);
    let expected_len = dummydata.len();
    let schema = embedded_schema();

    let parsed = decode(&schema, &dummydata).unwrap();
    let expected = Message {
        fields: vec![
            FieldValue::Oneof(Some(Chosen {
                variant: 1,
                payload: Payload::Scalar(Value::String(String::from("teststr"))),
            })),
            FieldValue::Scalar(Value::String(String::from(""))),
        ],
    };
    assert_eq!(parsed, expected);

    let mut dummydata = FixedBuffer::<100>::new();
    let bytes_written = encode(&schema, &expected, &mut dummydata).unwrap();
    assert_eq!(bytes_written, expected_len);
    let parsed = decode(&schema, &dummydata.as_slice()[0..bytes_written]).unwrap();
    assert_eq!(parsed, expected);
}

#[test]
fn test_oneof_embedded() {
    let mut dummydata = vec![0x0A, 0x23];
    dummydata.extend_from_slice(&simple_bytes());
    dummydata.extend_from_slice(&[0x2A, 0x0E]);
    dummydata.extend_from_slice(b"something else");

    let parsed = decode(&embedded_schema(), &dummydata).unwrap();
    let expected = Message {
        fields: vec![
            FieldValue::Oneof(Some(Chosen { variant: 0, payload: Payload::Message(simple_value()) })),
            FieldValue::Scalar(Value::String(String::from("something else"))),
        ],
    };
    assert_eq!(parsed, expected);
    println!("{:?}", parsed);
    assert_eq!(encode_to_vec(&embedded_schema(), &expected), dummydata);
}

// A packed list of no items does not appear in what is sent.
#[test]
fn test_repeated_encode_zero_elements() {
    let source = repeated_types_empty();
    let mut buffer = FixedBuffer::<100>::new();
    let bytes_written = encode(&repeated_types_schema(), &source, &mut buffer).unwrap();
    assert_eq!(bytes_written, 0);
    assert_eq!(buffer.as_slice()[0..bytes_written], []);
}

// One list with items in it, to see that something is sent at all.
#[test]
fn test_repeated_encode_one_element() {
    let mut source = repeated_types_empty();
    source.fields[12] = FieldValue::Repeated(vec![Value::Bool(true), Value::Bool(false)]);
    let mut buffer = FixedBuffer::<100>::new();
    let bytes_written = encode(&repeated_types_schema(), &source, &mut buffer).unwrap();
    assert_eq!(bytes_written, 4);
    assert_eq!(buffer.as_slice()[0..bytes_written], [0x68, 0x01, 0x68, 0x00]);
}

// A request for information is read as one.
#[test]
fn test_get_info() {
    let dummydata = get_info_bytes();
    let message = decode(&api_message_schema(), &dummydata).unwrap();

    // all in one pattern
    match &message.fields[0] {
        FieldValue::Oneof(Some(Chosen { variant: V1_REQUEST, payload: Payload::Message(request) })) => {
            match &request.fields[0] {
                FieldValue::Oneof(Some(Chosen { variant: GET_INFO, payload: Payload::Message(_) })) => (),
                _ => panic!("unexpected api message content"),
            }
        },
        _ => panic!("unexpected api message content"),
    }

    // step by step
    match &message.fields[0] {
        FieldValue::Oneof(Some(Chosen { variant: V1_REQUEST, payload: Payload::Message(message) })) => {
            match &message.fields[0] {
                FieldValue::Oneof(Some(Chosen { variant: GET_INFO, .. })) => (),
                _ => panic!("wrong request type"),
            }
        },
        _ => panic!("unexpected api message content"),
    }
}

// A request for information is not read as something else.
#[test]
#[should_panic(expected = "wrong request type")]
fn test_get_info_2() {
    let dummydata = get_info_bytes();
    let message = decode(&api_message_schema(), &dummydata).unwrap();

    match &message.fields[0] {
        FieldValue::Oneof(Some(Chosen { variant: V1_REQUEST, payload: Payload::Message(message) })) => {
            match &message.fields[0] {
                FieldValue::Oneof(Some(Chosen { variant: GET_OTHER_THING, .. })) => (),
                _ => panic!("wrong request type"),
            }
        },
        _ => panic!("unexpected api message content"),
    }
}

#[test]
fn get_info_is_written_as_it_was_read() {
    let message = Message {
        fields: vec![FieldValue::Oneof(Some(Chosen {
            variant: V1_REQUEST,
            payload: Payload::Message(Message {
                fields: vec![FieldValue::Oneof(Some(Chosen {
                    variant: GET_INFO,
                    payload: Payload::Message(Message { fields: vec![] }),
                }))],
            }),
        }))],
    };
    assert_eq!(encode_to_vec(&api_message_schema(), &message), get_info_bytes());
    assert_eq!(decode(&api_message_schema(), &get_info_bytes()).unwrap(), message);
}

#[test]
fn nothing_to_read_is_the_initial_message() {
    let parsed = decode(&simple_types_schema(), &[]).unwrap();
    assert_eq!(parsed, Message::initial(&simple_types_schema()));
    assert_eq!(parsed.fields[0], FieldValue::Scalar(Value::Int32(0)));
    assert_eq!(parsed.fields[13], FieldValue::Scalar(Value::String(String::new())));
    let parsed = decode(&embedded_schema(), &[]).unwrap();
    assert_eq!(parsed.fields[0], FieldValue::Oneof(None));
    let parsed = decode(&repeated_types_schema(), &[]).unwrap();
    assert_eq!(parsed, repeated_types_empty());
}

#[test]
fn last_value_of_a_scalar_wins() {
    let schema = MessageSchema { fields: vec![scalar("n", 1, ScalarType::Uint32, 0)] };
    let parsed = decode(&schema, &[0x08, 0x01, 0x08, 0x02, 0x08, 0x03]).unwrap();
    assert_eq!(parsed.fields[0], FieldValue::Scalar(Value::Uint32(3)));
}

#[test]
fn last_variant_of_a_oneof_wins() {
    let mut bytes = vec![0x1A, 0x01, b'a', 0x0A, 0x00, 0x1A, 0x02, b'b', b'c'];
    let parsed = decode(&embedded_schema(), &bytes).unwrap();
    assert_eq!(
        parsed.fields[0],
        FieldValue::Oneof(Some(Chosen {
            variant: 1,
            payload: Payload::Scalar(Value::String(String::from("bc"))),
        }))
    );
    bytes.extend_from_slice(&[0x0A, 0x00]);
    let parsed = decode(&embedded_schema(), &bytes).unwrap();
    assert_eq!(
        parsed.fields[0],
        FieldValue::Oneof(Some(Chosen {
            variant: 0,
            payload: Payload::Message(Message::initial(&simple_schema())),
        }))
    );
}

#[test]
fn number_of_a_oneof_that_selects_no_variant_fails() {
    // field 2 belongs to the oneof, but none of its variants is sent under it
    let result = decode(&embedded_schema(), &[0x12, 0x01, b'a']).unwrap_err();
    assert_eq!(result, DecodeError::UnexpectedEndOfBuffer);
}

#[test]
fn unknown_fields_are_passed_over() {
    // fields 20 to 23 are unknown; field 3 is known
    let bytes = [
        0xA0, 0x01, 0xFF, 0xFF, 0xFF, 0xFF, 0xFF, 0xFF, 0xFF, 0xFF, 0xFF, 0x01, // 20: varint
        0xAD, 0x01, 1, 2, 3, 4, // 21: four bytes
        0x18, 0x2A, // 3: 42
        0xB1, 0x01, 1, 2, 3, 4, 5, 6, 7, 8, // 22: eight bytes
        0xBA, 0x01, 0x03, 9, 9, 9, // 23: three bytes
    ];
    let parsed = decode(&simple_types_schema(), &bytes).unwrap();
    let mut expected = Message::initial(&simple_types_schema());
    expected.fields[2] = FieldValue::Scalar(Value::Uint32(42));
    assert_eq!(parsed, expected);
}

#[test]
fn known_fields_survive_a_schema_that_lacks_others() {
    // The full message is read by a schema that knows two of its fields,
    // written by it, and read again by the full schema.
    let narrow = MessageSchema {
        fields: vec![scalar("uint32", 3, ScalarType::Uint32, 0), scalar("string", 14, ScalarType::String, 10)],
    };
    let through = decode(&narrow, &simple_types_bytes()).unwrap();
    assert_eq!(
        through,
        Message {
            fields: vec![
                FieldValue::Scalar(Value::Uint32(42)),
                FieldValue::Scalar(Value::String(String::from("🐉"))),
            ],
        }
    );
    let back = decode(&simple_types_schema(), &encode_to_vec(&narrow, &through)).unwrap();
    let mut expected = Message::initial(&simple_types_schema());
    expected.fields[2] = FieldValue::Scalar(Value::Uint32(42));
    expected.fields[13] = FieldValue::Scalar(Value::String(String::from("🐉")));
    assert_eq!(back, expected);
}

#[test]
fn group_wire_types_fail_the_message() {
    // field 20 with the wire type of a group start
    let result = decode(&simple_types_schema(), &[0xA3, 0x01, 0x00]).unwrap_err();
    assert_eq!(result, DecodeError::UnsupportedWireType(3));
    let result = decode(&simple_types_schema(), &[0xA4, 0x01]).unwrap_err();
    assert_eq!(result, DecodeError::UnsupportedWireType(4));
}

#[test]
fn string_longer_than_the_field_fails_the_message() {
    let mut bytes = vec![0x0A, 0x0B];
    bytes.extend_from_slice(b"elevenbytes");
    let result = decode(&simple_schema(), &bytes).unwrap_err();
    assert_eq!(result, DecodeError::FieldOverflow("serial"));
    let mut bytes = vec![0x1A, 0x0B];
    bytes.extend_from_slice(b"elevenbytes");
    let result = decode(&embedded_schema(), &bytes).unwrap_err();
    assert_eq!(result, DecodeError::FieldOverflow("Content::Test"));
}

#[test]
fn list_with_more_items_than_it_holds_fails_the_message() {
    let schema = repeated_types_schema();
    // eleven booleans, packed
    let result = decode(&schema, &[0x6A, 0x0B, 1, 1, 1, 1, 1, 1, 1, 1, 1, 1, 1]).unwrap_err();
    assert_eq!(result, DecodeError::UnexpectedEndOfBuffer);
    // ten are fine
    let parsed = decode(&schema, &[0x6A, 0x0A, 1, 1, 1, 1, 1, 1, 1, 1, 1, 1]).unwrap();
    assert_eq!(parsed.fields[12], FieldValue::Repeated(vec![Value::Bool(true); 10]));
    // eleven, one by one
    let mut bytes = Vec::new();
    for _ in 0..11 {
        bytes.extend_from_slice(&[0x68, 0x01]);
    }
    let result = decode(&schema, &bytes).unwrap_err();
    assert_eq!(result, DecodeError::UnexpectedEndOfBuffer);
}

#[test]
fn packed_and_unpacked_occurrences_add_up() {
    let schema = repeated_types_schema();
    let parsed = decode(&schema, &[0x18, 0x01, 0x1A, 0x02, 0x02, 0x03, 0x18, 0x04]).unwrap();
    assert_eq!(
        parsed.fields[2],
        FieldValue::Repeated(vec![Value::Uint32(1), Value::Uint32(2), Value::Uint32(3), Value::Uint32(4)])
    );
}

#[test]
fn packed_run_that_ends_in_the_middle_of_a_value_fails() {
    let schema = repeated_types_schema();
    // a run of three bytes for a list of four-byte numbers
    let result = decode(&schema, &[0x3A, 0x03, 1, 2, 3, 0x18, 0x01]).unwrap_err();
    assert_eq!(result, DecodeError::UnexpectedEndOfBuffer);
}

#[test]
fn embedded_message_stops_at_its_length() {
    // The embedded message is followed by a field of the outer message with
    // a number that the embedded message knows too.
    let inner = MessageSchema { fields: vec![scalar("a", 1, ScalarType::Uint32, 0)] };
    let outer = MessageSchema {
        fields: vec![
            FieldDescriptor {
                name: "inner",
                numbers: vec![2],
                kind: FieldKind::Message(inner),
                repeated: false,
                capacity: 0,
                max_count: 0,
            },
            scalar("a", 1, ScalarType::Uint32, 0),
        ],
    };
    let bytes = [0x12, 0x02, 0x08, 0x07, 0x08, 0x09];
    let parsed = decode(&outer, &bytes).unwrap();
    assert_eq!(
        parsed,
        Message {
            fields: vec![
                FieldValue::Message(Message { fields: vec![FieldValue::Scalar(Value::Uint32(7))] }),
                FieldValue::Scalar(Value::Uint32(9)),
            ],
        }
    );
    assert_eq!(encode_to_vec(&outer, &parsed), bytes);
}

#[test]
fn embedded_message_length_is_its_real_size() {
    let expected = Message {
        fields: vec![
            FieldValue::Oneof(Some(Chosen { variant: 0, payload: Payload::Message(simple_value()) })),
            FieldValue::Scalar(Value::String(String::from(""))),
        ],
    };
    let bytes = encode_to_vec(&embedded_schema(), &expected);
    assert_eq!(bytes[0], 0x0A);
    assert_eq!(bytes[1] as usize, encode_to_vec(&simple_schema(), &simple_value()).len());
    assert_eq!(bytes[2..2 + 35], simple_bytes()[..]);
}

#[test]
fn message_that_does_not_fit_is_a_buffer_overflow() {
    let expected_bytes = simple_types_bytes();
    let mut exact = FixedBuffer::<88>::new();
    assert_eq!(encode(&simple_types_schema(), &simple_types_value(), &mut exact).unwrap(), 88);
    assert_eq!(exact.as_slice(), &expected_bytes[..]);
    let mut short = FixedBuffer::<87>::new();
    let result = encode(&simple_types_schema(), &simple_types_value(), &mut short).unwrap_err();
    assert_eq!(result, WriterError::BufferOverflow);
    let mut none = FixedBuffer::<0>::new();
    assert_eq!(encode(&repeated_types_schema(), &repeated_types_empty(), &mut none).unwrap(), 0);
}

#[test]
fn message_that_ends_in_the_middle_of_a_value_fails() {
    let bytes = simple_types_bytes();
    let result = decode(&simple_types_schema(), &bytes[0..5]).unwrap_err();
    assert_eq!(result, DecodeError::UnexpectedEndOfBuffer);
    // a tag and nothing after it
    let result = decode(&simple_types_schema(), &bytes[0..1]).unwrap_err();
    assert_eq!(result, DecodeError::EmptyBuffer);
}

#[test]
fn schema_with_a_number_that_fits_no_tag_cannot_be_sent() {
    let schema = MessageSchema { fields: vec![scalar("n", 0x2000_0000, ScalarType::Uint32, 0)] };
    assert!(!schema.is_sendable());
    let message = Message { fields: vec![FieldValue::Scalar(Value::Uint32(1))] };
    let mut buffer = FixedBuffer::<10>::new();
    assert_eq!(try_encode(&schema, &message, &mut buffer).unwrap_err(), WriterError::OverflowError);
    assert_eq!(buffer.len(), 0);

    let unnumbered = MessageSchema {
        fields: vec![FieldDescriptor {
            name: "n",
            numbers: vec![],
            kind: FieldKind::Scalar(ScalarType::Uint32),
            repeated: false,
            capacity: 0,
            max_count: 0,
        }],
    };
    assert!(!unnumbered.is_sendable());

    assert!(simple_types_schema().is_sendable());
    assert!(api_message_schema().is_sendable());
    let mut buffer = FixedBuffer::<100>::new();
    assert_eq!(try_encode(&simple_types_schema(), &simple_types_value(), &mut buffer).unwrap(), 88);
}

#[test]
fn schemas_of_the_messages_are_well_formed() {
    assert!(simple_types_schema().validate());
    assert!(repeated_types_schema().validate());
    assert!(embedded_schema().validate());
    assert!(api_message_schema().validate());
}

#[test]
fn value_is_written_without_a_tag_and_read_by_its_type() {
    let value = Value::Sint32(-300);
    let mut buffer = FixedBuffer::<10>::new();
    assert_eq!(value.encode(&mut buffer).unwrap(), 2);
    assert_eq!(buffer.as_slice()[0..2], [0xD7, 0x04]);
    let mut view = LimitedIterator::over(&buffer.as_slice()[0..2]);
    assert_eq!(Value::decode(ScalarType::Sint32, 0, "", &mut view).unwrap(), value);
    assert_eq!(Value::initial(ScalarType::Bool), Value::Bool(false));
    assert_eq!(Value::initial(ScalarType::Bytes), Value::Bytes(vec![]));
}

#[test]
fn schemas_are_as_deep_as_their_embedded_messages() {
    assert!(simple_types_schema().nests_within(0));
    assert!(repeated_types_schema().nests_within(0));
    // a message in a variant
    assert!(!embedded_schema().nests_within(0));
    assert!(embedded_schema().nests_within(1));
    // a request in an API message, a message in the request
    assert!(!api_message_schema().nests_within(1));
    assert!(api_message_schema().nests_within(2));
    assert!(api_message_schema().nests_within(usize::MAX));
    assert!(MessageSchema { fields: vec![] }.nests_within(0));
}

#[test]
fn view_without_a_limit_shows_all_of_its_source() {
    let bytes = simple_types_bytes();
    let mut view = LimitedIterator::unlimited(twpb::iterators::SliceReader::new(&bytes));
    let parsed = decode_from(&simple_types_schema(), &mut view).unwrap();
    assert_eq!(parsed, simple_types_value());
    assert_eq!(view.next(), None);
}

#[test]
fn written_bytes_are_the_front_of_the_buffer() {
    let mut buffer = FixedBuffer::<8>::new();
    assert_eq!(buffer.filled(), &[] as &[u8]);
    twpb::encoder::leb128(&mut buffer, &300).unwrap();
    assert_eq!(buffer.filled(), &[0xAC, 0x02]);
    assert_eq!(buffer.len(), 2);
    assert_eq!(buffer.as_slice(), &[0xAC, 0x02, 0, 0, 0, 0, 0, 0]);
}
