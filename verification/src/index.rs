//! The index of one segment: for each record, the byte position in the log
//! where its encoding begins.

use crate::encoding::{be_bytes_u64, be_value_u64, read_u64_be, write_u64_be, ENTRY_SIZE};
use crate::types::{Error, Result};
use vstd::prelude::*;
use vstd::slice::slice_subrange;

verus! {

/// A fixed-width array of byte positions. The entry at array position `i`
/// belongs to the logical offset `base_offset + i`.
pub struct Index {
    pub id: u64,
    /// The logical offset of the first entry: the id of the segment.
    pub base_offset: u64,
    /// The logical offset that the next entry will get.
    pub next_offset: u64,
    /// The contents of the index file.
    pub data: Vec<u8>,
}

impl Index {
    /// The bytes of the index.
    pub open spec fn bytes(&self) -> Seq<u8> {
        self.data@
    }

    /// The number of whole entries in the index.
    pub open spec fn count(&self) -> int {
        self.data@.len() as int / 8
    }

    /// The byte position stored in the entry at array position `slot`.
    pub open spec fn entry(&self, slot: int) -> u64 {
        be_value_u64(self.data@.subrange(8 * slot, 8 * slot + 8))
    }

    /// The index starts at its segment's id and has one offset for each
    /// whole entry.
    pub open spec fn wf(&self) -> bool {
        &&& self.base_offset == self.id
        &&& self.next_offset == self.base_offset + self.count()
    }

    /// The index has an entry for the logical offset `offset`.
    pub open spec fn holds(&self, offset: u64) -> bool {
        self.base_offset <= offset < self.next_offset
    }

    /// The index holds whole entries only.
    pub open spec fn aligned(&self) -> bool {
        self.data@.len() % 8 == 0
    }

    /// An empty index for the segment `id`.
    pub fn new(id: u64) -> (index: Index)
        ensures
            index.wf(),
            index.aligned(),
            index.id == id,
            index.base_offset == id,
            index.next_offset == id,
            index.bytes() == Seq::<u8>::empty(),
    {
        Index { id, base_offset: id, next_offset: id, data: Vec::new() }
    }

    /// The index for the segment `id` over contents written earlier. The
    /// next offset follows from their length: one offset for every eight
    /// bytes.
    pub fn open(id: u64, contents: Vec<u8>) -> (index: Index)
        requires
            id + contents@.len() / 8 <= u64::MAX,
        ensures
            index.wf(),
            index.id == id,
            index.base_offset == id,
            index.next_offset == id + contents@.len() / 8,
            index.bytes() == contents@,
    {
        let entries = (contents.len() / ENTRY_SIZE) as u64;
        Index { id, base_offset: id, next_offset: id + entries, data: contents }
    }

    /// Appends one entry that holds the byte position `value`, for the
    /// logical offset that was next.
    pub fn add_entry(&mut self, value: u64) -> (res: Result<()>)
        requires
            old(self).wf(),
            old(self).next_offset < u64::MAX,
        ensures
            res is Ok,
            final(self).wf(),
            final(self).aligned() == old(self).aligned(),
            final(self).id == old(self).id,
            final(self).base_offset == old(self).base_offset,
            final(self).next_offset == old(self).next_offset + 1,
            final(self).bytes() == old(self).bytes() + be_bytes_u64(value),
    {
        let mut buf = write_u64_be(value);
        self.data.append(&mut buf);
        self.next_offset += 1;
        Ok(())
    }

    /// The byte position stored for the logical offset `offset`. An offset
    /// before the base offset, or at or beyond the next offset, is out of
    /// range.
    pub fn find_entry(&self, offset: u64) -> (res: Result<u64>)
        requires
            self.wf(),
        ensures
            self.holds(offset) ==> res == Ok::<u64, Error>(self.entry(offset - self.base_offset)),
            !self.holds(offset) ==> res == Err::<u64, Error>(Error::OffsetOutOfRange(offset)),
    {
        if offset < self.base_offset || offset >= self.next_offset {
            return Err(Error::OffsetOutOfRange(offset));
        }
        let len = self.data.len();
        assert(offset - self.base_offset < len / 8);
        let slot = (offset - self.base_offset) as usize;
        let start = slot * ENTRY_SIZE;
        let buf = slice_subrange(self.data.as_slice(), start, start + ENTRY_SIZE);
        Ok(read_u64_be(buf))
    }

    /// The number of bytes in the index.
    pub fn size(&self) -> (n: u64)
        ensures
            n == self.bytes().len(),
    {
        self.data.len() as u64
    }
}

} // verus!
