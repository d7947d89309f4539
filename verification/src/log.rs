//! The log of one segment: encoded records, one after another.

use crate::encoding::{
    encode_record, read_u32_be, record_end, u32_to_be_bytes, u64_to_be_bytes, HEADER_SIZE,
};
use crate::types::{Error, Result};
use vstd::prelude::*;
use vstd::slice::slice_subrange;

verus! {

/// The part of `data` that a read of at most `max_bytes` bytes from byte
/// position `start` copies: it ends with the data, or after `max_bytes`
/// bytes if that comes first, and is empty from a position at or past the end.
pub open spec fn read_window(data: Seq<u8>, start: int, max_bytes: int) -> Seq<u8> {
    if 0 <= start < data.len() && 0 <= max_bytes {
        if max_bytes < data.len() - start {
            data.subrange(start, start + max_bytes)
        } else {
            data.subrange(start, data.len() as int)
        }
    } else {
        Seq::empty()
    }
}

/// An append-only store of encoded records for one segment.
pub struct Log {
    pub id: u64,
    /// The write cursor: the number of bytes in the log.
    pub position: u64,
    /// The contents of the log file.
    pub data: Vec<u8>,
}

impl Log {
    /// The bytes of the log.
    pub open spec fn bytes(&self) -> Seq<u8> {
        self.data@
    }

    /// The write cursor stands at the end of the bytes.
    pub open spec fn wf(&self) -> bool {
        self.position == self.data@.len()
    }

    /// An empty log for the segment `id`.
    pub fn new(id: u64) -> (log: Log)
        ensures
            log.wf(),
            log.id == id,
            log.position == 0,
            log.bytes() == Seq::<u8>::empty(),
    {
        Log { id, position: 0, data: Vec::new() }
    }

    /// The log for the segment `id` over contents written earlier; the
    /// cursor starts at their end.
    pub fn open(id: u64, contents: Vec<u8>) -> (log: Log)
        ensures
            log.wf(),
            log.id == id,
            log.position == contents@.len(),
            log.bytes() == contents@,
    {
        let position = contents.len() as u64;
        Log { id, position, data: contents }
    }

    /// Appends the record of `entry` under the logical offset `offset` and
    /// moves the cursor past it.
    pub fn add_entry(&mut self, offset: u64, entry: Vec<u8>) -> (res: Result<()>)
        requires
            old(self).wf(),
            entry@.len() <= u32::MAX,
        ensures
            res is Ok,
            final(self).wf(),
            final(self).id == old(self).id,
            final(self).bytes() == old(self).bytes() + encode_record(offset, entry@),
            final(self).position == old(self).position + 12 + entry@.len(),
    {
        let mut entry = entry;
        let entry_size = entry.len() as u32;
        let mut bytes = u64_to_be_bytes(offset);
        let mut size_bytes = u32_to_be_bytes(entry_size);
        bytes.append(&mut size_bytes);
        bytes.append(&mut entry);
        self.data.append(&mut bytes);
        self.position = self.data.len() as u64;
        Ok(())
    }

    /// Copies the raw bytes from byte position `position` on to the end of
    /// `target`: at most `bytes` of them, and no more than the log holds
    /// from there. Record boundaries play no part.
    pub fn stream_entries(&self, position: u64, bytes: usize, target: &mut Vec<u8>) -> (res: Result<()>)
        ensures
            res == Ok::<(), Error>(()),
            final(target)@ == old(target)@ + read_window(self.bytes(), position as int, bytes as int),
    {
        let size = self.data.len();
        if position < size as u64 {
            let start = position as usize;
            let available = size - start;
            let count = if bytes > available { available } else { bytes };
            let mut i: usize = 0;
            while i < count
                invariant
                    start + count <= size,
                    size == self.data@.len(),
                    i <= count,
                    target@ == old(target)@ + self.data@.subrange(start as int, start + i),
                decreases count - i,
            {
                target.push(self.data[start + i]);
                i += 1;
                assert(self.data@.subrange(start as int, start + i) =~= self.data@.subrange(
                    start as int,
                    start + i - 1,
                ).push(self.data@[start + i - 1]));
            }
        } else {
            assert(target@ =~= old(target)@ + Seq::<u8>::empty());
        }
        Ok(())
    }

    /// The byte position behind the record that begins at `at`; `None`
    /// where the bytes from `at` on hold no whole record.
    pub fn record_end(&self, at: u64) -> (res: Option<u64>)
        ensures
            match res {
                Some(end) => record_end(self.bytes(), at as int) == Some(end as int),
                None => record_end(self.bytes(), at as int) is None,
            },
    {
        let len = self.data.len();
        if at > len as u64 || len - (at as usize) < HEADER_SIZE {
            return None;
        }
        let start = at as usize;
        let field = slice_subrange(self.data.as_slice(), start + 8, start + HEADER_SIZE);
        let n = read_u32_be(field) as usize;
        if len - start - HEADER_SIZE < n {
            None
        } else {
            Some((start + HEADER_SIZE + n) as u64)
        }
    }

    /// The number of bytes in the log.
    pub fn size(&self) -> (n: u64)
        ensures
            n == self.bytes().len(),
    {
        self.data.len() as u64
    }
}

/// Partial read: a read of `count` bytes from a byte position that has at
/// least `count` bytes behind it gives exactly `count` bytes, the same
/// that any longer read from there starts with.
pub proof fn lemma_partial_read(data: Seq<u8>, start: int, count: int, more: int)
    requires
        0 <= start,
        0 <= count <= more,
        start + count <= data.len(),
    ensures
        read_window(data, start, count).len() == count,
        read_window(data, start, count) == data.subrange(start, start + count),
        read_window(data, start, count) == read_window(data, start, more).subrange(0, count),
{
    assert(read_window(data, start, count) =~= data.subrange(start, start + count));
    assert(read_window(data, start, count) =~= read_window(data, start, more).subrange(0, count));
}

} // verus!
