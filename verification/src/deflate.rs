//! The DEFLATE decompressor under the name the zip reader uses for it.

use vstd::prelude::*;
use crate::error::ArchiveError;
use crate::inflate::Inflate;
use crate::inflate_spec::inflate_spec;

verus! {

/// A type for implementing the DEFLATE decompression algorithm; it decodes
/// exactly as `Inflate` does.
pub struct Deflate {
    inner: Inflate,
}

impl Deflate {
    /// The compressed stream.
    pub closed spec fn data(&self) -> Seq<u8> {
        self.inner.data()
    }

    /// Everything decompressed so far.
    pub closed spec fn produced(&self) -> Seq<u8> {
        self.inner.produced()
    }

    /// Well-formedness, as for `Inflate`.
    pub closed spec fn wf(&self) -> bool {
        self.inner.wf()
    }

    /// A `Deflate` and an `Inflate` of one stream decode it alike: having handed
    /// out equally many bytes, they have handed out the same bytes, whatever
    /// buffer sizes each was read with.
    pub proof fn lemma_agrees_with_inflate(d: &Deflate, i: &Inflate)
        requires
            d.wf(),
            i.wf(),
            d.data() == i.data(),
            d.produced().len() == i.produced().len(),
        ensures
            d.produced() == i.produced(),
    {
        Inflate::lemma_chunking_irrelevant(&d.inner, i);
    }

    /// Creates a new `Deflate` structure that decompresses the given bytes.
    pub fn new(reader: &[u8]) -> (r: Self)
        requires
            8 * reader@.len() + 64 <= usize::MAX,
        ensures
            r.wf(),
            r.data() == reader@,
            r.produced() == Seq::<u8>::empty(),
    {
        Deflate { inner: Inflate::new(reader) }
    }

    /// Decompresses into the given buffer: fills it, or as much of it as the
    /// stream has left, and returns the number of bytes written.
    ///
    /// # Errors
    ///
    /// If the stream is malformed or truncated before the buffer is full, the
    /// error that the decoding ran into; every later read into a non-empty
    /// buffer fails the same way.
    pub fn read(&mut self, buf: &mut [u8]) -> (r: Result<usize, ArchiveError>)
        requires
            old(self).wf(),
        ensures
            final(self).wf(),
            final(self).data() == old(self).data(),
            final(buf)@.len() == old(buf)@.len(),
            ({
                let full = inflate_spec(old(self).data()).0;
                let res = inflate_spec(old(self).data()).1;
                let p = old(self).produced().len();
                let len = old(buf)@.len();
                &&& old(self).produced() == full.subrange(0, p as int)
                &&& (r is Err <==> (res is Err && p + len > full.len()))
                &&& r matches Ok(n) ==> {
                    &&& n == if p + len <= full.len() {
                        len as int
                    } else {
                        full.len() - p
                    }
                    &&& final(buf)@.subrange(0, n as int) == full.subrange(p as int, p + n)
                    &&& final(buf)@.subrange(n as int, len as int) == old(buf)@.subrange(
                        n as int,
                        len as int,
                    )
                    &&& final(self).produced() == full.subrange(0, p + n)
                }
                &&& r matches Err(e) ==> res == Err::<(), ArchiveError>(e) && final(self).produced()
                    == full
                &&& r matches Ok(n) ==> (n < len ==> final(self).produced() == full)
            }),
    {
        self.inner.read(buf)
    }
}

} // verus!
