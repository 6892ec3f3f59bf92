//! Wire-type numbers, as they appear in the low three bits of a tag.

pub mod wire_types;
