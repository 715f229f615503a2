//! Storage adapter: block-device style access over a sequential reader.
//!
//! The array-file engine expects a storage backend with sized reads at
//! arbitrary offsets, end-of-allocation bookkeeping and a fixed physical
//! size.  The host, however, supplies only an abstract sequential reader
//! with `seek`/`read`/`size`.  [`StorageAdapter`] translates between the
//! two contracts: it repositions the reader only when needed, tolerates
//! short reads past the end of the data by zero-filling, and rejects all
//! writes.

use vstd::prelude::*;

use crate::IoError;

verus! {

/// The byte read from `data` at offset `off`, where every offset past the
/// end of the data reads as zero.  This is the storage adapter's view of
/// the file: a real prefix followed by an infinite zero tail, so that an
/// engine probing past the end of the file sees zeros rather than an error.
pub open spec fn byte_at(data: Seq<u8>, off: int) -> u8 {
    if 0 <= off < data.len() {
        data[off]
    } else {
        0
    }
}

/// The host-supplied sequential reader capability: a fixed byte string, a
/// cursor, sized reads at the cursor, and repositioning.  Reads may return
/// fewer bytes than requested, but must make progress while data remains
/// and must return zero bytes exactly at the end of the data.
pub trait ByteReader: Sized {
    /// The full byte contents backing this reader.  Fixed for the life of
    /// the reader: no method changes it.
    spec fn data(&self) -> Seq<u8>;

    /// The current cursor, as an offset into (or past the end of) `data`.
    spec fn pos(&self) -> int;

    /// Well-formedness: the contents and cursor fit the 64-bit interface.
    spec fn wf(&self) -> bool;

    /// Whether this reader is known never to fail: reads on a reliable
    /// reader always return `Ok`.  A remote source for which failure is
    /// possible reports `false`.
    spec fn reliable(&self) -> bool;

    /// The total byte length of the contents.
    fn size(&self) -> (r: u64)
        requires
            self.wf(),
        ensures
            r == self.data().len(),
    ;

    /// The current cursor position.
    fn stream_position(&self) -> (r: u64)
        requires
            self.wf(),
        ensures
            r == self.pos(),
    ;

    /// Move the cursor to `to`, which may lie past the end of the data.
    fn seek(&mut self, to: u64)
        requires
            old(self).wf(),
        ensures
            final(self).wf(),
            final(self).data() == old(self).data(),
            final(self).reliable() == old(self).reliable(),
            final(self).pos() == to as int,
    ;

    /// Read from the cursor into `buf[start..]`, returning how many bytes
    /// were written.  A return of `Ok(0)` with room left in the buffer
    /// means the cursor is at or past the end of the data.  `Err` is a
    /// hard failure of the underlying source, leaving buffer and cursor
    /// unchanged.
    fn read_at(&mut self, buf: &mut Vec<u8>, start: usize) -> (r: Result<usize, IoError>)
        requires
            old(self).wf(),
            start <= old(buf).len(),
        ensures
            final(self).wf(),
            final(self).data() == old(self).data(),
            final(self).reliable() == old(self).reliable(),
            old(self).reliable() ==> r is Ok,
            final(buf)@.len() == old(buf)@.len(),
            match r {
                Ok(n) => {
                    &&& start + n <= old(buf)@.len()
                    &&& old(self).pos() >= old(self).data().len() ==> n == 0
                    &&& n > 0 ==> old(self).pos() + n <= old(self).data().len()
                    &&& (start < old(buf)@.len() && old(self).pos() < old(self).data().len())
                        ==> n > 0
                    &&& final(self).pos() == old(self).pos() + n
                    &&& forall|i: int|
                        start <= i < start + n ==> #[trigger] final(buf)@[i] == old(
                            self,
                        ).data()[old(self).pos() + (i - start)]
                    &&& forall|i: int|
                        0 <= i < old(buf)@.len() && !(start <= i < start + n)
                            ==> #[trigger] final(buf)@[i] == old(buf)@[i]
                },
                Err(e) => {
                    &&& e is ReadFailed
                    &&& final(buf)@ == old(buf)@
                    &&& final(self).pos() == old(self).pos()
                },
            },
    ;
}

/// An in-memory reader over an owned byte buffer, the reference
/// implementation of [`ByteReader`].  Hosts with remote or file-backed
/// sources provide their own implementation at the boundary.
pub struct MemoryReader {
    bytes: Vec<u8>,
    cursor: u64,
}

impl MemoryReader {
    /// A reader over `bytes`, with the cursor at the start.
    pub fn new(bytes: Vec<u8>) -> (r: Self)
        ensures
            r.wf(),
            r.data() == bytes@,
            r.pos() == 0,
    {
        MemoryReader { bytes, cursor: 0 }
    }
}

impl ByteReader for MemoryReader {
    closed spec fn data(&self) -> Seq<u8> {
        self.bytes@
    }

    closed spec fn pos(&self) -> int {
        self.cursor as int
    }

    closed spec fn wf(&self) -> bool {
        true
    }

    closed spec fn reliable(&self) -> bool {
        true
    }

    fn size(&self) -> (r: u64) {
        self.bytes.len() as u64
    }

    fn stream_position(&self) -> (r: u64) {
        self.cursor
    }

    fn seek(&mut self, to: u64) {
        self.cursor = to;
    }

    fn read_at(&mut self, buf: &mut Vec<u8>, start: usize) -> (r: Result<usize, IoError>) {
        let len = self.bytes.len();
        if self.cursor >= len as u64 {
            return Ok(0);
        }
        let at: usize = self.cursor as usize;
        let avail: usize = len - at;
        let space: usize = buf.len() - start;
        let n: usize = if avail < space {
            avail
        } else {
            space
        };
        let mut i: usize = 0;
        while i < n
            invariant
                i <= n,
                start + n <= buf@.len(),
                at + n <= self.bytes@.len(),
                self.bytes@.len() <= usize::MAX,
                buf@.len() <= usize::MAX,
                buf@.len() == old(buf)@.len(),
                self == old(self),
                at == self.cursor as int,
                forall|k: int|
                    start <= k < start + i ==> #[trigger] buf@[k] == self.bytes@[at + (k - start)],
                forall|k: int|
                    0 <= k < buf@.len() && !(start <= k < start + i) ==> #[trigger] buf@[k]
                        == old(buf)@[k],
            decreases n - i,
        {
            let b = self.bytes[at + i];
            buf.set(start + i, b);
            i += 1;
        }
        self.cursor = self.cursor + n as u64;
        Ok(n)
    }
}

/// The block-device style storage backend required by the array-file
/// engine, implemented over any [`ByteReader`].  It owns the reader from
/// [`StorageAdapter::open`] until [`StorageAdapter::close`]; the engine is
/// expected to serialize its calls per adapter.
pub struct StorageAdapter<R: ByteReader> {
    reader: R,
    size: u64,
    eoa: u64,
}

impl<R: ByteReader> StorageAdapter<R> {
    /// The byte contents seen through this adapter.
    pub closed spec fn data(&self) -> Seq<u8> {
        self.reader.data()
    }

    /// The stored end-of-allocation mark.
    pub closed spec fn eoa_spec(&self) -> u64 {
        self.eoa
    }

    /// Whether the underlying reader is known never to fail.
    pub closed spec fn reliable(&self) -> bool {
        self.reader.reliable()
    }

    /// Well-formedness: the reader is usable and the cached size is the
    /// reader's total length.
    pub closed spec fn wf(&self) -> bool {
        &&& self.reader.wf()
        &&& self.size == self.reader.data().len()
    }

    /// Open an adapter over `reader`: query and cache the total size once,
    /// and start end-of-allocation bookkeeping at zero.
    pub fn open(reader: R) -> (r: Self)
        requires
            reader.wf(),
        ensures
            r.wf(),
            r.data() == reader.data(),
            r.eoa_spec() == 0,
            r.reliable() == reader.reliable(),
    {
        let size = reader.size();
        StorageAdapter { reader, size, eoa: 0 }
    }

    /// Read `len` bytes starting at `addr`.  Bytes beyond the end of the
    /// data read as zero; only a hard failure of the underlying reader is
    /// an error.  The reader is repositioned only if its cursor is not
    /// already at `addr`.
    pub fn read(&mut self, addr: u64, len: usize) -> (r: Result<Vec<u8>, IoError>)
        requires
            old(self).wf(),
            addr + len <= u64::MAX,
        ensures
            final(self).wf(),
            final(self).data() == old(self).data(),
            final(self).eoa_spec() == old(self).eoa_spec(),
            final(self).reliable() == old(self).reliable(),
            old(self).reliable() ==> r is Ok,
            match r {
                Ok(out) => {
                    &&& out@.len() == len
                    &&& forall|i: int| 0 <= i < len ==> out@[i] == byte_at(old(self).data(), addr + i)
                },
                Err(e) => e is ReadFailed,
            },
    {
        let p = self.reader.stream_position();
        if p != addr {
            self.reader.seek(addr);
        }
        let mut out: Vec<u8> = Vec::new();
        let mut i: usize = 0;
        while i < len
            invariant
                i <= len,
                out@.len() == i,
                forall|k: int| 0 <= k < i ==> out@[k] == 0u8,
            decreases len - i,
        {
            out.push(0);
            i += 1;
        }
        let mut filled: usize = 0;
        let mut at_end: bool = false;
        while !at_end && filled < len
            invariant
                self.reader.wf(),
                self.reader.data() == old(self).data(),
                self.reader.reliable() == old(self).reliable(),
                self.reader.pos() == addr + filled,
                self.size == self.reader.data().len(),
                self.size == old(self).size,
                self.eoa == old(self).eoa,
                filled <= len,
                out@.len() == len,
                out@.len() <= usize::MAX,
                addr + len <= u64::MAX,
                at_end ==> addr + filled >= old(self).data().len(),
                filled == 0 || addr + filled <= old(self).data().len(),
                forall|k: int|
                    0 <= k < filled ==> #[trigger] out@[k] == old(self).data()[addr + k],
                forall|k: int| filled <= k < len ==> #[trigger] out@[k] == 0u8,
            decreases len - filled, (if at_end { 0int } else { 1int }),
        {
            let n = match self.reader.read_at(&mut out, filled) {
                Ok(n) => n,
                Err(_) => {
                    return Err(IoError::ReadFailed);
                },
            };
            if n == 0 {
                at_end = true;
            } else {
                proof {
                    assert forall|k: int| filled <= k < filled + n implies #[trigger] out@[k]
                        == old(self).data()[addr + k] by {
                        assert(out@[k] == old(self).data()[addr + filled + (k - filled)]);
                    }
                }
                filled = filled + n;
            }
        }
        proof {
            assert forall|i: int| 0 <= i < len implies out@[i] == byte_at(
                old(self).data(),
                addr + i,
            ) by {
                if i < filled {
                    assert(out@[i] == old(self).data()[addr + i]);
                    assert(addr + i < old(self).data().len());
                } else {
                    assert(out@[i] == 0u8);
                    assert(addr + i >= old(self).data().len());
                }
            }
        }
        Ok(out)
    }

    /// Writes always fail: the adapter is read-only, because the host data
    /// source is not assumed to support mutation.
    pub fn write(&mut self, _addr: u64, _bytes: &[u8]) -> (r: Result<(), IoError>)
        requires
            old(self).wf(),
        ensures
            *final(self) == *old(self),
            r matches Err(e) && e is ReadOnly,
    {
        Err(IoError::ReadOnly)
    }

    /// The stored end-of-allocation mark, used by the engine for its own
    /// space bookkeeping; not tied to the physical size.
    pub fn get_end_of_allocation(&self) -> (r: u64)
        ensures
            r == self.eoa_spec(),
    {
        self.eoa
    }

    /// Store a new end-of-allocation mark.
    pub fn set_end_of_allocation(&mut self, addr: u64)
        requires
            old(self).wf(),
        ensures
            final(self).wf(),
            final(self).data() == old(self).data(),
            final(self).eoa_spec() == addr,
    {
        self.eoa = addr;
    }

    /// The fixed total length of the underlying data, cached at open.
    pub fn get_physical_size(&self) -> (r: u64)
        requires
            self.wf(),
        ensures
            r == self.data().len(),
    {
        self.size
    }

    /// Release the adapter, handing the reader back to the caller.
    pub fn close(self) -> (r: R)
        requires
            self.wf(),
        ensures
            r.wf(),
            r.data() == self.data(),
    {
        self.reader
    }
}

/// File-access property handle for hosts that need no virtual-driver
/// registration: the default driver is identified by zero.
pub fn get_vfs_fapl() -> (r: i64)
    ensures
        r == 0,
{
    0
}

} // verus!
