//! Concrete byte sources and sinks: a reader over a slice, a view that is
//! limited to a run of bytes, a sink that only counts, and a sink backed by
//! an array.

use vstd::prelude::*;
use crate::traits::{advanced, lemma_advanced_remaining, Reader, Writer, WriterError};

verus! {

/// A source that yields the bytes of a slice, front to back.
pub struct SliceReader<'a> {
    data: &'a [u8],
    pos: usize,
}

impl<'a> SliceReader<'a> {
    /// A source over all of `data`.
    pub fn new(data: &'a [u8]) -> (r: Self)
        ensures
            r.remaining() == data@,
    {
        let r = SliceReader { data, pos: 0 };
        assert(data@.skip(0) == data@);
        r
    }

    /// How many bytes are left.
    pub fn len(&self) -> (n: usize)
        ensures
            n == self.remaining().len(),
    {
        if self.pos <= self.data.len() {
            self.data.len() - self.pos
        } else {
            0
        }
    }
}

impl<'a> Reader for SliceReader<'a> {
    closed spec fn remaining(&self) -> Seq<u8> {
        if self.pos <= self.data@.len() {
            self.data@.skip(self.pos as int)
        } else {
            Seq::empty()
        }
    }

    closed spec fn after_next(&self) -> Self {
        if self.pos < self.data@.len() {
            SliceReader { data: self.data, pos: (self.pos + 1) as usize }
        } else {
            *self
        }
    }

    proof fn lemma_after_next(&self) {
        assert(self.data.len() == self.data@.len());
        if self.pos < self.data@.len() {
            assert(self.data@.skip(self.pos as int).skip(1) == self.data@.skip(self.pos + 1));
        }
    }

    fn next(&mut self) -> (r: Option<u8>) {
        if self.pos < self.data.len() {
            let b = self.data[self.pos];
            self.pos = self.pos + 1;
            Some(b)
        } else {
            None
        }
    }
}

/// The first `len` bytes of `s`, or all of `s` when it has fewer: what a
/// view that is limited to `len` bytes shows of `s`.
pub open spec fn window(s: Seq<u8>, len: nat) -> Seq<u8> {
    if len <= s.len() {
        s.take(len as int)
    } else {
        s
    }
}

/// A view of a source that yields at most a given number of further bytes,
/// however many the source could still supply, and takes from the source
/// only what it yields.
pub struct LimitedIterator<R: Reader> {
    source_iterator: R,
    range: u64,
    current_index: u64,
}

impl<R: Reader> LimitedIterator<R> {
    /// How many more bytes this view may take from its source.
    pub closed spec fn budget(&self) -> nat {
        if self.current_index <= self.range {
            (self.range - self.current_index) as nat
        } else {
            0
        }
    }

    /// The wrapped source.
    pub closed spec fn inner(&self) -> R {
        self.source_iterator
    }

    /// A view of the next `range` bytes of `source_iterator`.
    pub fn new(source_iterator: R, range: u32) -> (r: Self)
        ensures
            r.inner() == source_iterator,
            r.budget() == range,
            r.remaining() == window(source_iterator.remaining(), range as nat),
    {
        LimitedIterator { source_iterator, range: range as u64, current_index: 0 }
    }

    /// A view of as much of `source_iterator` as a view can show: its next
    /// 2^64 - 1 bytes.
    pub fn unlimited(source_iterator: R) -> (r: Self)
        ensures
            r.inner() == source_iterator,
            r.budget() == u64::MAX,
            r.remaining() == window(source_iterator.remaining(), u64::MAX as nat),
    {
        LimitedIterator { source_iterator, range: u64::MAX, current_index: 0 }
    }

    /// Gives the source back, as far as this view has advanced it.
    pub fn into_inner(self) -> (r: R)
        ensures
            r == self.inner(),
    {
        self.source_iterator
    }

    /// The view yields the first `budget` bytes of its source, or all of
    /// them when the source holds fewer.
    pub proof fn lemma_remaining(&self)
        ensures
            self.remaining() == window(self.inner().remaining(), self.budget()),
    {
    }

    /// Taking `n` bytes that the view holds advances the source by `n` and
    /// uses up `n` of the budget.
    pub proof fn lemma_advanced(&self, n: nat)
        requires
            n <= self.remaining().len(),
        ensures
            advanced(*self, n).inner() == advanced(self.inner(), n),
            advanced(*self, n).budget() == self.budget() - n,
        decreases n,
    {
        self.lemma_remaining();
        if n > 0 {
            self.lemma_after_next();
            self.source_iterator.lemma_after_next();
            self.after_next().lemma_advanced((n - 1) as nat);
        }
    }

    /// The budget is a number of 64 bits.
    pub proof fn lemma_budget_bound(&self)
        ensures
            self.budget() <= u64::MAX,
    {
    }

    /// Narrows the view to at most `len` of the bytes it still holds and
    /// returns the part of the budget that was set aside.
    pub fn enter(&mut self, len: u32) -> (outer: u64)
        ensures
            final(self).inner() == old(self).inner(),
            final(self).budget() == if len <= old(self).budget() { len as nat } else { old(self).budget() },
            outer == old(self).budget() - final(self).budget(),
            final(self).remaining() == window(old(self).remaining(), len as nat),
    {
        proof {
            let s = self.source_iterator.remaining();
            let b = self.budget();
            if len <= b <= s.len() {
                assert(s.take(b as int).take(len as int) == s.take(len as int));
            }
        }
        let left: u64 = if self.current_index <= self.range {
            self.range - self.current_index
        } else {
            0
        };
        let inner: u64 = if (len as u64) <= left { len as u64 } else { left };
        self.range = inner;
        self.current_index = 0;
        left - inner
    }

    /// Widens the view again by the budget that [`LimitedIterator::enter`]
    /// set aside.
    pub fn leave(&mut self, outer: u64)
        requires
            old(self).budget() + outer <= u64::MAX,
        ensures
            final(self).inner() == old(self).inner(),
            final(self).budget() == old(self).budget() + outer,
    {
        let left: u64 = if self.current_index <= self.range {
            self.range - self.current_index
        } else {
            0
        };
        self.range = left + outer;
        self.current_index = 0;
    }
}

/// A view went from `before` to `after` by yielding `n` of the bytes it
/// held: its source is `n` bytes further, and `n` of its budget is spent.
pub open spec fn moved<R: Reader>(before: LimitedIterator<R>, after: LimitedIterator<R>, n: nat) -> bool {
    &&& n <= before.remaining().len()
    &&& after.inner() == advanced(before.inner(), n)
    &&& after.budget() == before.budget() - n
}

/// A view that took `n` steps has moved by `n`.
pub proof fn lemma_moved_advanced<R: Reader>(before: LimitedIterator<R>, n: nat)
    requires
        n <= before.remaining().len(),
    ensures
        moved(before, advanced(before, n), n),
{
    before.lemma_advanced(n);
}

/// A view that has moved by `n` holds what it held, less the first `n`
/// bytes.
pub proof fn lemma_moved_remaining<R: Reader>(before: LimitedIterator<R>, after: LimitedIterator<R>, n: nat)
    requires
        moved(before, after, n),
    ensures
        after.remaining() == before.remaining().skip(n as int),
{
    before.lemma_remaining();
    after.lemma_remaining();
    let s = before.inner().remaining();
    let b = before.budget();
    lemma_advanced_remaining(before.inner(), n);
    if b <= s.len() {
        assert(s.skip(n as int).take(b - n) == s.take(b as int).skip(n as int));
    }
}

/// Moves add up.
pub proof fn lemma_moved_then<R: Reader>(
    a: LimitedIterator<R>,
    b: LimitedIterator<R>,
    c: LimitedIterator<R>,
    n: nat,
    m: nat,
)
    requires
        moved(a, b, n),
        moved(b, c, m),
    ensures
        moved(a, c, n + m),
{
    lemma_moved_remaining(a, b, n);
    crate::traits::lemma_advanced_add(a.inner(), n, m);
}

impl<'a> LimitedIterator<SliceReader<'a>> {
    /// A view of everything `data` holds.
    pub fn over(data: &'a [u8]) -> (r: Self)
        ensures
            r.remaining() == data@,
            r.budget() == data@.len(),
    {
        let source_iterator = SliceReader::new(data);
        LimitedIterator { source_iterator, range: data.len() as u64, current_index: 0 }
    }
}

impl<R: Reader> Reader for LimitedIterator<R> {
    closed spec fn remaining(&self) -> Seq<u8> {
        window(self.source_iterator.remaining(), self.budget())
    }

    closed spec fn after_next(&self) -> Self {
        if self.budget() > 0 && self.source_iterator.remaining().len() > 0 {
            LimitedIterator {
                source_iterator: self.source_iterator.after_next(),
                range: self.range,
                current_index: (self.current_index + 1) as u64,
            }
        } else {
            *self
        }
    }

    proof fn lemma_after_next(&self) {
        self.source_iterator.lemma_after_next();
        if self.budget() > 0 && self.source_iterator.remaining().len() > 0 {
            let s = self.source_iterator.remaining();
            let b = self.budget();
            if b <= s.len() {
                assert(s.take(b as int).skip(1) == s.skip(1).take(b - 1));
            }
        }
    }

    fn next(&mut self) -> (r: Option<u8>) {
        if self.current_index < self.range {
            proof {
                self.source_iterator.lemma_after_next();
            }
            let r = self.source_iterator.next();
            if r.is_some() {
                self.current_index += 1;
            }
            r
        } else {
            None
        }
    }
}

/// A sink that stores nothing and only counts the bytes it is given.
pub struct NullCounterBuffer {
    current_index: usize,
    log: Ghost<Seq<u8>>,
}

impl NullCounterBuffer {
    /// A counter at zero.
    pub fn new() -> (r: Self)
        ensures
            r.written() == Seq::<u8>::empty(),
            r.room() == usize::MAX,
    {
        NullCounterBuffer { current_index: 0, log: Ghost(Seq::empty()) }
    }
}

impl Writer for NullCounterBuffer {
    closed spec fn written(&self) -> Seq<u8> {
        self.log@
    }

    closed spec fn room(&self) -> usize {
        (usize::MAX - self.current_index) as usize
    }

    fn write(&mut self, byte: u8) -> (r: Result<(), WriterError>) {
        if self.current_index < usize::MAX {
            self.current_index += 1;
            self.log = Ghost(self.log@.push(byte));
            Ok(())
        } else {
            Err(WriterError::BufferOverflow)
        }
    }
}

/// A sink that fills an array of `N` bytes from the front.
pub struct FixedBuffer<const N: usize> {
    data: [u8; N],
    pos: usize,
}

impl<const N: usize> FixedBuffer<N> {
    /// An array of `N` zero bytes, none of them written yet.
    pub fn new() -> (r: Self)
        ensures
            r.written() == Seq::<u8>::empty(),
            r.room() == N,
            r.contents() == Seq::new(N as nat, |i: int| 0u8),
    {
        let r = FixedBuffer { data: vstd::array::array_fill_for_copy_types(0u8), pos: 0 };
        assert(r.data@ == Seq::new(N as nat, |i: int| 0u8));
        r
    }

    /// All `N` bytes of the array: what was written, then what is left of
    /// the initial zeros.
    pub closed spec fn contents(&self) -> Seq<u8> {
        self.data@
    }

    /// The whole array.
    pub fn as_slice(&self) -> (s: &[u8])
        ensures
            s@ == self.contents(),
    {
        self.data.as_slice()
    }

    /// The bytes that have been written.
    pub fn filled(&self) -> (s: &[u8])
        ensures
            s@ == self.written(),
    {
        vstd::slice::slice_subrange(self.data.as_slice(), 0, self.len())
    }

    /// How many bytes have been written.
    pub fn len(&self) -> (n: usize)
        ensures
            n == self.written().len(),
    {
        if self.pos <= N {
            self.pos
        } else {
            N
        }
    }

    /// What was written is the front of the array.
    pub proof fn lemma_contents(&self)
        ensures
            self.written().len() <= N,
            self.contents().len() == N,
            self.written() == self.contents().take(self.written().len() as int),
    {
    }
}

impl<const N: usize> Writer for FixedBuffer<N> {
    closed spec fn written(&self) -> Seq<u8> {
        self.data@.take(if self.pos <= N { self.pos as int } else { N as int })
    }

    closed spec fn room(&self) -> usize {
        if self.pos <= N {
            (N - self.pos) as usize
        } else {
            0
        }
    }

    fn write(&mut self, byte: u8) -> (r: Result<(), WriterError>) {
        if self.pos < N {
            let ghost before = self.data@;
            self.data[self.pos] = byte;
            assert(self.data@.take(self.pos + 1) == before.take(self.pos as int).push(byte));
            self.pos = self.pos + 1;
            Ok(())
        } else {
            Err(WriterError::BufferOverflow)
        }
    }
}

} // verus!
