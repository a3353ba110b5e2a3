//! Positioned buffered writing: the active segment's bytes together with the
//! current absolute offset, updated by the exact byte count of every write.
//! Tracking the offset here is what lets the store compute each record's
//! byte range without asking the storage layer.
use vstd::prelude::*;

verus! {

/// A positioned writer over the active segment's bytes. Writes append and
/// advance the offset by exactly the bytes written; the offset always equals
/// the segment's length, since the segment is append-only.
pub struct BufWriterWithPos {
    /// The segment bytes written so far.
    pub buf: Vec<u8>,
    /// The current absolute offset.
    pub pos: u64,
}

impl BufWriterWithPos {
    /// The offset agrees with the bytes written.
    pub open spec fn wf(self) -> bool {
        self.pos == self.buf@.len()
    }

    /// A writer over already-recovered segment bytes, positioned at their
    /// end, where appending resumes.
    pub fn new(buf: Vec<u8>) -> (w: BufWriterWithPos)
        ensures
            w.wf(),
            w.buf == buf,
    {
        let pos: u64 = buf.len() as u64;
        BufWriterWithPos { buf, pos }
    }

    /// Appends `src`, advancing the offset by exactly `src.len()`.
    pub fn write(&mut self, src: &[u8])
        requires
            old(self).wf(),
        ensures
            final(self).wf(),
            final(self).buf@ == old(self).buf@ + src@,
            final(self).pos == old(self).pos + src@.len(),
    {
        crate::codec::append_bytes(&mut self.buf, src);
        self.pos = self.buf.len() as u64;
    }

    /// Forces durability of everything written. The bytes of this writer are
    /// always complete in memory, so there is nothing left to push down; the
    /// unverified shell that owns the files makes them durable.
    pub fn flush(&mut self)
        requires
            old(self).wf(),
        ensures
            *final(self) == *old(self),
    {
    }
}

/// A positioned bounded read: exactly `len` bytes of a segment starting at
/// absolute offset `pos`, the counterpart of the writer's offset tracking.
pub fn read_at(data: &Vec<u8>, pos: u64, len: u64) -> (out: Vec<u8>)
    requires
        pos + len <= data@.len(),
    ensures
        out@ == data@.subrange(pos as int, pos as int + len as int),
{
    let dlen: usize = data.len();
    let p: usize = pos as usize;
    let l: usize = len as usize;
    let s: &[u8] = vstd::slice::slice_subrange(data.as_slice(), p, p + l);
    vstd::slice::slice_to_vec(s)
}

} // verus!
