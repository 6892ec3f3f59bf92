//! The byte source and byte sink abstractions the codec is written against.

use vstd::prelude::*;
use crate::decoder::DecodeError;
use crate::iterators::{moved, LimitedIterator};

verus! {

/// Why a write was refused.
#[derive(Debug, Copy, Clone, Eq, PartialEq)]
pub enum WriterError {
    /// The destination has no room left.
    BufferOverflow,
    /// A field number or wire type does not fit in a tag.
    OverflowError,
}

/// A byte source: yields its remaining bytes one at a time, then `None`.
///
/// Taking a byte is deterministic: the state it leaves behind is
/// [`Reader::after_next`] of the state it found, so a caller that knows how
/// many bytes a function took knows the whole state of the source afterwards.
pub trait Reader: Sized {
    /// The bytes this source has yet to yield, in order.
    spec fn remaining(&self) -> Seq<u8>;

    /// The source as one call of [`Reader::next`] leaves it.
    spec fn after_next(&self) -> Self;

    /// One step drops the first remaining byte; an empty source stays as it is.
    proof fn lemma_after_next(&self)
        ensures
            self.remaining().len() > 0 ==> self.after_next().remaining() == self.remaining().skip(1),
            self.remaining().len() == 0 ==> self.after_next() == *self,
    ;

    /// Takes the next byte, if there is one.
    fn next(&mut self) -> (r: Option<u8>)
        ensures
            r == if old(self).remaining().len() > 0 {
                Some(old(self).remaining()[0])
            } else {
                None
            },
            *final(self) == old(self).after_next(),
    ;
}

/// The source `r` after `n` calls of [`Reader::next`].
pub open spec fn advanced<R: Reader>(r: R, n: nat) -> R
    decreases n,
{
    if n == 0 {
        r
    } else {
        advanced(r.after_next(), (n - 1) as nat)
    }
}

/// Steps add up.
pub proof fn lemma_advanced_add<R: Reader>(r: R, a: nat, b: nat)
    ensures
        advanced(advanced(r, a), b) == advanced(r, a + b),
    decreases a,
{
    if a > 0 {
        lemma_advanced_add(r.after_next(), (a - 1) as nat, b);
    }
}

/// One more step after `n` is `n + 1` steps.
pub proof fn lemma_advanced_step<R: Reader>(r: R, n: nat)
    ensures
        advanced(r, n).after_next() == advanced(r, n + 1),
{
    lemma_advanced_add(r, n, 1);
    assert(advanced(advanced(r, n), 1) == advanced(advanced(r, n).after_next(), 0)) by {
        reveal_with_fuel(advanced, 2);
    }
}

/// `n` steps drop the first `n` remaining bytes, or all of them when fewer
/// are left.
pub proof fn lemma_advanced_remaining<R: Reader>(r: R, n: nat)
    ensures
        n <= r.remaining().len() ==> advanced(r, n).remaining() == r.remaining().skip(n as int),
        n >= r.remaining().len() ==> advanced(r, n) == advanced(r, r.remaining().len()),
        n >= r.remaining().len() ==> advanced(r, n).remaining().len() == 0,
    decreases n,
{
    r.lemma_after_next();
    if n == 0 {
        assert(r.remaining().skip(0) == r.remaining());
    } else if r.remaining().len() == 0 {
        lemma_advanced_remaining(r.after_next(), (n - 1) as nat);
    } else {
        lemma_advanced_remaining(r.after_next(), (n - 1) as nat);
        if n <= r.remaining().len() {
            assert(r.remaining().skip(1).skip(n - 1) == r.remaining().skip(n as int));
        }
    }
}

/// The state of a sink, as contracts see it.
pub struct SinkState {
    /// Every byte accepted so far, in order.
    pub written: Seq<u8>,
    /// How many more bytes will be accepted.
    pub room: usize,
}

/// What becomes of a sink when `bytes` are offered to it one by one and the
/// first refusal ends the attempt: everything is taken when there is room,
/// otherwise exactly as much as fits.
pub open spec fn offered(before: SinkState, after: SinkState, r: Result<usize, WriterError>, bytes: Seq<u8>) -> bool {
    if bytes.len() <= before.room {
        &&& r == Ok::<usize, WriterError>(bytes.len() as usize)
        &&& after.written == before.written + bytes
        &&& after.room == before.room - bytes.len()
    } else {
        &&& r == Err::<usize, WriterError>(WriterError::BufferOverflow)
        &&& after.written == before.written + bytes.take(before.room as int)
        &&& after.room == 0
    }
}

/// Two runs offered one after the other are their concatenation offered at
/// once: the second is only offered when the first was taken whole, and
/// whichever refusal comes first is the refusal of the whole.
pub proof fn lemma_offered_then(
    s0: SinkState,
    s1: SinkState,
    s2: SinkState,
    r1: Result<usize, WriterError>,
    r2: Result<usize, WriterError>,
    x: Seq<u8>,
    y: Seq<u8>,
)
    requires
        offered(s0, s1, r1, x),
        r1 is Ok ==> offered(s1, s2, r2, y),
    ensures
        r1 is Err ==> offered(s0, s1, r1, x + y),
        r1 is Ok && r2 is Err ==> offered(s0, s2, r2, x + y),
        r1 is Ok && r2 is Ok ==> r1->Ok_0 + r2->Ok_0 <= usize::MAX && offered(
            s0,
            s2,
            Ok((r1->Ok_0 + r2->Ok_0) as usize),
            x + y,
        ),
{
    if r1 is Err {
        assert((x + y).take(s0.room as int) == x.take(s0.room as int));
    } else if r2 is Err {
        assert(s0.written + x + y.take(s1.room as int) == s0.written + (x + y).take(s0.room as int));
    } else {
        assert(s0.written + x + y == s0.written + (x + y));
    }
}

/// What becomes of a sink when the bytes of a whole message are sent to
/// it: they are all taken when there is room, and the attempt fails when
/// there is not, in which case the sink has kept what it held and nothing
/// is said of how much more it took.
pub open spec fn delivered(before: SinkState, after: SinkState, r: Result<usize, WriterError>, bytes: Seq<u8>) -> bool {
    if bytes.len() <= before.room {
        &&& r == Ok::<usize, WriterError>(bytes.len() as usize)
        &&& after.written == before.written + bytes
        &&& after.room == before.room - bytes.len()
    } else {
        &&& r == Err::<usize, WriterError>(WriterError::BufferOverflow)
        &&& before.written.len() <= after.written.len()
        &&& after.written.take(before.written.len() as int) == before.written
    }
}

/// Bytes that were offered one by one were delivered.
pub proof fn lemma_offered_delivered(before: SinkState, after: SinkState, r: Result<usize, WriterError>, bytes: Seq<u8>)
    requires
        offered(before, after, r, bytes),
    ensures
        delivered(before, after, r, bytes),
{
    if bytes.len() > before.room {
        assert((before.written + bytes.take(before.room as int)).take(before.written.len() as int)
            == before.written);
    }
}

/// Two runs delivered one after the other are their concatenation
/// delivered at once: the second is only sent when the first was taken,
/// and either failure is the failure of the whole.
pub proof fn lemma_delivered_then(
    s0: SinkState,
    s1: SinkState,
    s2: SinkState,
    r1: Result<usize, WriterError>,
    r2: Result<usize, WriterError>,
    x: Seq<u8>,
    y: Seq<u8>,
)
    requires
        delivered(s0, s1, r1, x),
        r1 is Ok ==> delivered(s1, s2, r2, y),
    ensures
        r1 is Err ==> delivered(s0, s1, r1, x + y),
        r1 is Ok && r2 is Err ==> delivered(s0, s2, r2, x + y),
        r1 is Ok && r2 is Ok ==> r1->Ok_0 + r2->Ok_0 <= usize::MAX && delivered(
            s0,
            s2,
            Ok((r1->Ok_0 + r2->Ok_0) as usize),
            x + y,
        ),
{
    if r1 is Err {
    } else if r2 is Err {
        assert(s2.written.take(s0.written.len() as int) == s2.written.take(s1.written.len() as int).take(
            s0.written.len() as int,
        ));
        assert((s0.written + x).take(s0.written.len() as int) == s0.written);
    } else {
        assert(s0.written + x + y == s0.written + (x + y));
    }
}

/// The state of `w`.
pub open spec fn state_of<W: Writer>(w: W) -> SinkState {
    SinkState { written: w.written(), room: w.room() }
}

/// `bytes` were offered to a sink that went from `before` to `after`, and
/// `r` reports the outcome.
pub open spec fn emits<W: Writer>(before: W, after: W, r: Result<usize, WriterError>, bytes: Seq<u8>) -> bool {
    offered(state_of(before), state_of(after), r, bytes)
}

/// The bytes of a whole message were sent to a sink that went from
/// `before` to `after`, and `r` reports the outcome.
pub open spec fn delivers<W: Writer>(before: W, after: W, r: Result<usize, WriterError>, bytes: Seq<u8>) -> bool {
    delivered(state_of(before), state_of(after), r, bytes)
}

/// A byte sink with a fixed amount of room.
pub trait Writer: Sized {
    /// Every byte this sink has accepted, in order.
    spec fn written(&self) -> Seq<u8>;

    /// How many more bytes this sink will accept.
    spec fn room(&self) -> usize;

    /// Offers one byte. It is accepted exactly when there is room; a refused
    /// byte leaves the sink as it was.
    fn write(&mut self, byte: u8) -> (r: Result<(), WriterError>)
        ensures
            r == if old(self).room() > 0 {
                Ok::<(), WriterError>(())
            } else {
                Err::<(), WriterError>(WriterError::BufferOverflow)
            },
            final(self).written() == if old(self).room() > 0 {
                old(self).written().push(byte)
            } else {
                old(self).written()
            },
            final(self).room() == if old(self).room() > 0 {
                old(self).room() - 1
            } else {
                0
            },
    ;

    /// Offers a run of bytes, stopping at the first refusal.
    fn write_all(&mut self, bytes: &[u8]) -> (r: Result<usize, WriterError>)
        ensures
            offered(
                SinkState { written: old(self).written(), room: old(self).room() },
                SinkState { written: final(self).written(), room: final(self).room() },
                r,
                bytes@,
            ),
    {
        let mut i: usize = 0;
        while i < bytes.len()
            invariant
                i <= bytes.len(),
                i <= old(self).room(),
                self.written() == old(self).written() + bytes@.take(i as int),
                self.room() == old(self).room() - i,
            decreases bytes.len() - i,
        {
            match self.write(bytes[i]) {
                Ok(()) => {},
                Err(e) => {
                    assert(bytes@.take(i as int) == bytes@.take(old(self).room() as int));
                    return Err(e);
                },
            }
            assert(bytes@.take(i as int).push(bytes@[i as int]) == bytes@.take(i + 1));
            i += 1;
        }
        assert(bytes@.take(i as int) == bytes@);
        Ok(bytes.len())
    }
}

/// A message type that knows how to write itself.
pub trait MessageEncoder {
    /// The bytes the message is sent as.
    spec fn wire_form(&self) -> Seq<u8>;

    /// Writes the message. It succeeds exactly when the sink has room for
    /// all of it, and then returns how many bytes that took.
    fn twpb_encode<W: Writer>(&self, buffer: &mut W) -> (r: Result<usize, WriterError>)
        ensures
            delivered(
                SinkState { written: old(buffer).written(), room: old(buffer).room() },
                SinkState { written: final(buffer).written(), room: final(buffer).room() },
                r,
                self.wire_form(),
            ),
    ;
}

/// A message type that knows how to read itself.
pub trait MessageDecoder: Sized {
    /// Whether `outcome` is what reading a message from exactly `bytes`
    /// comes to.
    spec fn read_as(bytes: Seq<u8>, outcome: Result<Self, DecodeError>) -> bool;

    /// Reads a message from all of `buf`.
    fn twpb_decode(buf: &[u8]) -> (r: Result<Self, DecodeError>)
        ensures
            Self::read_as(buf@, r),
    {
        let mut view = LimitedIterator::over(buf);
        Self::twpb_decode_iter(&mut view)
    }

    /// Reads a message from a bounded view, to the end of the view.
    /// Nothing is said of how far a failed read went.
    fn twpb_decode_iter<R: Reader>(bytes: &mut LimitedIterator<R>) -> (r: Result<Self, DecodeError>)
        ensures
            Self::read_as(old(bytes).remaining(), r),
            r is Ok ==> moved(*old(bytes), *final(bytes), old(bytes).remaining().len()),
    ;
}

} // verus!
