//! A re-fillable byte source over bytes held in memory: it hands out the
//! bytes a bounded chunk at a time, as a buffered reader does, and refills
//! only once the current chunk is wholly consumed.
use vstd::prelude::*;

verus! {

/// The chunk size used when none is given.
pub const DEFAULT_CHUNK: usize = 8192;

pub struct ByteSource {
    data: Vec<u8>,
    start: usize,
    end: usize,
    chunk: usize,
}

impl ByteSource {
    /// All bytes of the source, consumed or not.
    pub closed spec fn data(&self) -> Seq<u8> {
        self.data@
    }

    /// How many bytes have been consumed.
    pub closed spec fn consumed(&self) -> int {
        self.start as int
    }

    /// How many bytes are buffered and not yet consumed.
    pub closed spec fn buffered(&self) -> int {
        self.end - self.start
    }

    /// The most bytes one refill buffers.
    pub closed spec fn chunk(&self) -> int {
        self.chunk as int
    }

    pub closed spec fn wf(&self) -> bool {
        &&& self.start <= self.end <= self.data@.len()
        &&& self.chunk > 0
    }

    pub proof fn lemma_bounds(&self)
        requires
            self.wf(),
        ensures
            0 <= self.consumed(),
            0 <= self.buffered(),
            self.consumed() + self.buffered() <= self.data().len(),
    {
    }

    /// A source over `data` that refills at most `chunk` bytes at a time (at
    /// least one, where `chunk` is zero).
    pub fn new(data: Vec<u8>, chunk: usize) -> (r: ByteSource)
        ensures
            r.wf(),
            r.data() == data@,
            r.consumed() == 0,
            r.buffered() == 0,
            r.chunk() == if chunk == 0 { 1 } else { chunk as int },
    {
        let chunk = if chunk == 0 { 1 } else { chunk };
        ByteSource { data, start: 0, end: 0, chunk }
    }

    /// The number of buffered bytes, refilling first if none are buffered;
    /// zero only once the source is exhausted.
    pub fn fill_buf(&mut self) -> (n: usize)
        requires
            old(self).wf(),
        ensures
            final(self).wf(),
            final(self).data() == old(self).data(),
            final(self).consumed() == old(self).consumed(),
            final(self).chunk() == old(self).chunk(),
            n == final(self).buffered(),
            old(self).buffered() > 0 ==> final(self).buffered() == old(self).buffered(),
            old(self).buffered() == 0 ==> final(self).buffered() == vstd::math::min(
                old(self).chunk(),
                old(self).data().len() - old(self).consumed(),
            ),
            n == 0 <==> old(self).consumed() == old(self).data().len(),
    {
        if self.start == self.end {
            let rest = self.data.len() - self.start;
            self.end = if rest < self.chunk {
                self.data.len()
            } else {
                self.start + self.chunk
            };
        }
        self.end - self.start
    }

    /// Whether no bytes lie beyond the buffered ones.
    pub fn is_drained(&self) -> (r: bool)
        requires
            self.wf(),
        ensures
            r == (self.consumed() + self.buffered() == self.data().len()),
    {
        self.end == self.data.len()
    }

    /// The number of buffered bytes, without refilling.
    pub fn buffered_len(&self) -> (n: usize)
        requires
            self.wf(),
        ensures
            n == self.buffered(),
    {
        self.end - self.start
    }

    /// The `i`-th buffered byte.
    pub fn byte(&self, i: usize) -> (b: u8)
        requires
            self.wf(),
            i < self.buffered(),
        ensures
            b == self.data()[self.consumed() + i],
    {
        self.data[self.start + i]
    }

    /// Marks the first `n` buffered bytes as consumed.
    pub fn consume(&mut self, n: usize)
        requires
            old(self).wf(),
            n <= old(self).buffered(),
        ensures
            final(self).wf(),
            final(self).data() == old(self).data(),
            final(self).consumed() == old(self).consumed() + n,
            final(self).buffered() == old(self).buffered() - n,
            final(self).chunk() == old(self).chunk(),
    {
        self.start = self.start + n;
    }
}

} // verus!
