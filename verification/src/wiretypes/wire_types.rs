use vstd::prelude::*;
use crate::attributes::same_text;

verus! {

/// int32, int64, uint32, uint64, sint32, sint64, bool, enum
pub const VARINT: u8 = 0;

/// fixed64, sfixed64, double
pub const B64: u8 = 1;

/// string, bytes, embedded messages, packed repeated fields
pub const LENGTHDELIMITED: u8 = 2;

/// start of a group (deprecated, never decoded)
pub const STARTGROUP: u8 = 3;

/// end of a group (deprecated, never decoded)
pub const ENDGROUP: u8 = 4;

/// fixed32, sfixed32, float
pub const B32: u8 = 5;

/// The wire type of the type that a word names.
pub open spec fn wire_type_named(name: Seq<char>) -> Option<u8> {
    if name == "int32"@ || name == "int64"@ || name == "uint32"@ || name == "uint64"@ || name == "sint32"@
        || name == "sint64"@ || name == "bool"@ || name == "enum"@ {
        Some(VARINT)
    } else if name == "fixed64"@ || name == "sfixed64"@ || name == "double"@ {
        Some(B64)
    } else if name == "string"@ || name == "bytes"@ || name == "message"@ {
        Some(LENGTHDELIMITED)
    } else if name == "fixed32"@ || name == "sfixed32"@ || name == "float"@ {
        Some(B32)
    } else {
        None
    }
}

/// The wire type of the type that a word names.
pub fn for_proto_type(proto_type: &str) -> (r: Option<u8>)
    ensures
        r == wire_type_named(proto_type@),
{
    if same_text(proto_type, "int32") || same_text(proto_type, "int64") || same_text(proto_type, "uint32")
        || same_text(proto_type, "uint64") || same_text(proto_type, "sint32") || same_text(
        proto_type,
        "sint64",
    ) || same_text(proto_type, "bool") || same_text(proto_type, "enum") {
        Some(VARINT)
    } else if same_text(proto_type, "fixed64") || same_text(proto_type, "sfixed64") || same_text(
        proto_type,
        "double",
    ) {
        Some(B64)
    } else if same_text(proto_type, "string") || same_text(proto_type, "bytes") || same_text(
        proto_type,
        "message",
    ) {
        Some(LENGTHDELIMITED)
    } else if same_text(proto_type, "fixed32") || same_text(proto_type, "sfixed32") || same_text(
        proto_type,
        "float",
    ) {
        Some(B32)
    } else {
        None
    }
}

} // verus!
