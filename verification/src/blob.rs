//! Byte-stream I/O: ordered read and write cursors over the binary stream
//! attached to an image.
//!
//! A reader is a cursor over the request's input bytes; a writer gathers
//! output bytes that are committed back to the image when the stream is
//! closed.  A short read (fewer bytes available than requested) is a hard
//! failure reported through the exception channel.

use vstd::prelude::*;

use crate::exception::{thrown, Exception, ExceptionInfo, ExceptionTag};

verus! {

/// Read cursor over an image's attached byte stream.
pub struct BlobReader {
    pub data: Vec<u8>,
    pub pos: usize,
}

/// Write cursor gathering an image's output byte stream.
pub struct BlobWriter {
    pub data: Vec<u8>,
}

impl BlobReader {
    /// A cursor well-formed for reading: the position never passes the end.
    pub open spec fn wf(&self) -> bool {
        self.pos <= self.data@.len()
    }

    /// Bytes not yet consumed.
    pub open spec fn remaining(&self) -> int {
        self.data@.len() - self.pos
    }

    /// Reads the next byte.  When the stream is exhausted, records a
    /// "short read" corrupt-image failure and leaves the cursor alone.
    pub fn read_u8(&mut self, exception_info: &mut ExceptionInfo) -> (r: Result<u8, ()>)
        requires
            old(self).wf(),
        ensures
            final(self).wf(),
            final(self).data == old(self).data,
            if old(self).remaining() >= 1 {
                &&& r matches Ok(b) && b == old(self).data@[old(self).pos as int]
                &&& final(self).pos == old(self).pos + 1
                &&& *final(exception_info) == *old(exception_info)
            } else {
                &&& r is Err
                &&& final(self).pos == old(self).pos
                &&& *final(exception_info) == thrown(
                    *old(exception_info),
                    Exception::CorruptImageError,
                    ExceptionTag::ShortRead,
                    "read_u8",
                )
            },
    {
        if self.pos < self.data.len() {
            let b = self.data[self.pos];
            self.pos = self.pos + 1;
            Ok(b)
        } else {
            let _ = exception_info.throw(
                Exception::CorruptImageError,
                ExceptionTag::ShortRead,
                "read_u8",
            );
            Err(())
        }
    }

    /// Reads a two-byte big-endian field.  When fewer than two bytes
    /// remain, records a "short read" corrupt-image failure; whatever was
    /// available is still consumed, mirroring a stream that hands out its
    /// last bytes before reporting exhaustion.
    pub fn read_u16_be(&mut self, exception_info: &mut ExceptionInfo) -> (r: Result<u16, ()>)
        requires
            old(self).wf(),
        ensures
            final(self).wf(),
            final(self).data == old(self).data,
            if old(self).remaining() >= 2 {
                &&& r matches Ok(v) && v == old(self).data@[old(self).pos as int] * 256
                    + old(self).data@[old(self).pos + 1]
                &&& final(self).pos == old(self).pos + 2
                &&& *final(exception_info) == *old(exception_info)
            } else {
                &&& r is Err
                &&& final(self).pos == old(self).data@.len()
                &&& *final(exception_info) == thrown(
                    *old(exception_info),
                    Exception::CorruptImageError,
                    ExceptionTag::ShortRead,
                    "read_u8",
                )
            },
    {
        let hi = self.read_u8(exception_info)?;
        let lo = self.read_u8(exception_info)?;
        Ok((hi as u16) * 256 + (lo as u16))
    }
}

impl BlobWriter {
    /// A fresh, empty output stream.
    pub fn new() -> (r: BlobWriter)
        ensures
            r.data@ == Seq::<u8>::empty(),
    {
        BlobWriter { data: Vec::new() }
    }

    /// Appends one byte.  The host stream buffers unconditionally, so
    /// writes do not fail.
    pub fn write_u8(&mut self, v: u8)
        ensures
            final(self).data@ == old(self).data@.push(v),
    {
        self.data.push(v);
    }

    /// Appends a two-byte big-endian field.
    pub fn write_u16_be(&mut self, v: u16)
        ensures
            final(self).data@ == old(self).data@.push((v / 256) as u8).push((v % 256) as u8),
    {
        self.data.push((v / 256) as u8);
        self.data.push((v % 256) as u8);
    }

    /// Appends every byte of `buf`, in order.
    pub fn write_all(&mut self, buf: &[u8])
        ensures
            final(self).data@ == old(self).data@ + buf@,
    {
        let mut i: usize = 0;
        while i < buf.len()
            invariant
                i <= buf@.len(),
                self.data@ == old(self).data@ + buf@.subrange(0, i as int),
            decreases buf@.len() - i,
        {
            self.data.push(buf[i]);
            i = i + 1;
            proof {
                assert(buf@.subrange(0, i as int)
                    == buf@.subrange(0, i - 1).push(buf@[i - 1]));
            }
        }
        proof {
            assert(buf@.subrange(0, buf@.len() as int) == buf@);
        }
    }
}

} // verus!
