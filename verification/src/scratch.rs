//! The fixed-capacity buffer in which a varint's chunks are collected
//! before they are put together.
//!
//! The buffer is a `heapless::Vec`. Verus does not read that crate: what
//! this module says of it is taken from its source and is believed, not
//! proved.

use vstd::prelude::*;

verus! {

/// `heapless::Vec`, a vector with inline storage for `N` items.
#[verifier::external_type_specification]
#[verifier::external_body]
#[verifier::reject_recursive_types(T)]
pub struct ExHeaplessVec<T, const N: usize>(heapless::Vec<T, N>);

/// The items that a chunk buffer holds, oldest first.
pub uninterp spec fn chunks(buffer: heapless::Vec<u8, 11>) -> Seq<u8>;

/// `heapless::Vec::new`: a buffer that holds nothing.
#[verifier::external_body]
pub(crate) fn chunks_new() -> (buffer: heapless::Vec<u8, 11>)
    ensures
        chunks(buffer) == Seq::<u8>::empty(),
{
    heapless::Vec::new()
}

/// `heapless::Vec::push`: appends `item` when fewer than the eleven items
/// the buffer has room for are in it, and otherwise leaves the buffer as it
/// is. The result says whether the item was appended.
#[verifier::external_body]
pub(crate) fn chunks_push(buffer: &mut heapless::Vec<u8, 11>, item: u8) -> (pushed: bool)
    ensures
        pushed == (chunks(*old(buffer)).len() < 11),
        chunks(*final(buffer)) == if pushed {
            chunks(*old(buffer)).push(item)
        } else {
            chunks(*old(buffer))
        },
{
    buffer.push(item).is_ok()
}

/// `heapless::Vec::as_slice`: the items of the buffer, oldest first.
#[verifier::external_body]
pub(crate) fn chunks_as_slice(buffer: &heapless::Vec<u8, 11>) -> (items: &[u8])
    ensures
        items@ == chunks(*buffer),
{
    buffer.as_slice()
}

} // verus!
