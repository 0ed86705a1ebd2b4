//! Byte sinks and byte sources shared by the codecs.
use vstd::prelude::*;

verus! {

/// A failure reported by a sink or a source; the decoders and encoders pass it
/// on to their caller as it came.
#[derive(Debug, Clone, Copy, PartialEq, Eq)]
pub struct IoFailure {
    /// The sink's or source's own code for the failure.
    pub code: i32,
}

/// A byte sink that knows when the stream ends.
pub trait FiniteWriter {
    /// Everything written to the sink so far.
    spec fn written(&self) -> Seq<u8>;

    /// The sink never fails.
    spec fn reliable(&self) -> bool;

    /// Append `buf` to the sink. On failure, part of `buf` may have been
    /// written.
    fn write(&mut self, buf: &[u8]) -> (r: Result<(), IoFailure>)
        ensures
            final(self).reliable() == old(self).reliable(),
            old(self).reliable() ==> r is Ok,
            r is Ok ==> final(self).written() == old(self).written() + buf@,
            r is Err ==> final(self).written().len() >= old(self).written().len()
                && final(self).written().subrange(0, old(self).written().len() as int)
                == old(self).written(),
    ;

    /// Push what was written on to its destination; nothing is written.
    fn flush(&mut self) -> (r: Result<(), IoFailure>)
        ensures
            final(self).reliable() == old(self).reliable(),
            old(self).reliable() ==> r is Ok,
            final(self).written() == old(self).written(),
    ;

    /// Mark the end of the stream; by default, flush.
    fn write_terminator(&mut self) -> (r: Result<(), IoFailure>)
        ensures
            final(self).reliable() == old(self).reliable(),
            old(self).reliable() ==> r is Ok,
            final(self).written() == old(self).written(),
    {
        self.flush()
    }
}

impl FiniteWriter for Vec<u8> {
    open spec fn written(&self) -> Seq<u8> {
        self@
    }

    open spec fn reliable(&self) -> bool {
        true
    }

    fn write(&mut self, buf: &[u8]) -> (r: Result<(), IoFailure>) {
        let mut i: usize = 0;
        while i < buf.len()
            invariant
                i <= buf@.len(),
                self@ == old(self)@ + buf@.subrange(0, i as int),
            decreases buf.len() - i,
        {
            self.push(buf[i]);
            i += 1;
            assert(self@ =~= old(self)@ + buf@.subrange(0, i as int));
        }
        assert(buf@.subrange(0, buf@.len() as int) =~= buf@);
        Ok(())
    }

    fn flush(&mut self) -> (r: Result<(), IoFailure>) {
        Ok(())
    }
}

/// A pull source of bytes. A read delivers at least one byte while any are
/// left and the reader asks for any, and none once the source is exhausted.
pub trait ByteSource {
    /// The bytes that the source has yet to deliver.
    spec fn remaining(&self) -> Seq<u8>;

    /// The source never fails.
    spec fn reliable(&self) -> bool;

    /// Deliver the next bytes, at most `max` of them. A failed read delivers
    /// nothing.
    fn read(&mut self, max: usize) -> (r: Result<Vec<u8>, IoFailure>)
        ensures
            final(self).reliable() == old(self).reliable(),
            old(self).reliable() ==> r is Ok,
            r matches Ok(v) ==> {
                &&& v@.len() <= max
                &&& old(self).remaining() == v@ + final(self).remaining()
                &&& (v@.len() == 0 <==> (max == 0 || old(self).remaining().len() == 0))
            },
            r is Err ==> final(self).remaining() == old(self).remaining(),
    ;
}

/// An in-memory source that delivers its bytes in chunks of a fixed size.
pub struct MemReader {
    data: Vec<u8>,
    pos: usize,
    chunk: usize,
}

impl MemReader {
    pub closed spec fn wf(&self) -> bool {
        &&& self.pos <= self.data@.len()
        &&& self.chunk > 0
    }

    /// A source that delivers `data` in one chunk per read, as far as the
    /// reader asks.
    pub fn new(data: Vec<u8>) -> (r: MemReader)
        ensures
            r.wf(),
            r.remaining() == data@,
    {
        let n = data.len();
        MemReader { data, pos: 0, chunk: if n == 0 { 1 } else { n } }
    }

    /// A source that delivers `data` at most `chunk` bytes per read.
    pub fn with_chunk_size(data: Vec<u8>, chunk: usize) -> (r: MemReader)
        requires
            chunk > 0,
        ensures
            r.wf(),
            r.remaining() == data@,
    {
        MemReader { data, pos: 0, chunk }
    }
}

impl ByteSource for MemReader {
    closed spec fn remaining(&self) -> Seq<u8> {
        if self.wf() {
            self.data@.subrange(self.pos as int, self.data@.len() as int)
        } else {
            Seq::empty()
        }
    }

    open spec fn reliable(&self) -> bool {
        true
    }

    fn read(&mut self, max: usize) -> (r: Result<Vec<u8>, IoFailure>) {
        let mut out: Vec<u8> = Vec::new();
        if self.pos > self.data.len() || self.chunk == 0 {
            return Ok(out);
        }
        let want = if max < self.chunk { max } else { self.chunk };
        let start = self.pos;
        while out.len() < want && self.pos < self.data.len()
            invariant
                self.data == old(self).data,
                self.chunk == old(self).chunk,
                self.chunk > 0,
                start == old(self).pos,
                start <= self.pos <= self.data@.len(),
                out@.len() == self.pos - start,
                out@.len() <= want,
                out@ == self.data@.subrange(start as int, self.pos as int),
                want <= max,
                want == max || want == self.chunk,
            decreases self.data.len() - self.pos,
        {
            out.push(self.data[self.pos]);
            self.pos += 1;
            assert(out@ =~= self.data@.subrange(start as int, self.pos as int));
        }
        assert(old(self).remaining() =~= out@ + self.remaining());
        Ok(out)
    }
}

} // verus!
