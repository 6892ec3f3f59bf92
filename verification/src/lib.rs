//! A Protocol Buffers wire codec for targets with bounded memory.
//!
//! The crate has three layers. [`encoder`] and [`decoder`] write and read
//! single values: varints, zigzag numbers, tags, fixed-width numbers, text
//! and bytes. [`engine`] writes and reads whole messages as a
//! [`schema::MessageSchema`] directs, with lists, oneofs and embedded
//! messages. [`attributes`] reads the declarations that schemas are made
//! from.
//!
//! Every executable function carries a contract over byte sequences. What
//! the bytes of a value look like and what bytes mean is defined in [`wire`]
//! for single values and in [`codec`] for messages, and the laws that tie
//! writing to reading are proved in [`laws`], [`message_laws`] and [`typing`].

pub mod attributes;
pub mod codec;
pub mod decoder;
pub mod encoder;
pub mod engine;
pub mod iterators;
pub mod laws;
pub mod message;
pub mod message_laws;
pub mod schema;
mod scratch;
pub mod traits;
pub mod typing;
pub mod wire;
pub mod wiretypes;

pub use crate::decoder::DecodeError;
pub use crate::iterators::LimitedIterator;
pub use crate::traits::{MessageDecoder, MessageEncoder, Reader, Writer, WriterError};
pub use crate::wiretypes::wire_types;
