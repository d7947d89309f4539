//! A segment's log and index, written in lockstep.

use crate::encoding::{
    batch_len, be_bytes_u64, encode_batch, encode_positions, encode_record,
    lemma_encode_batch_concat, lemma_encode_positions_concat, payloads_fit, payloads_of,
    read_u64_be, recovered_index, resume_point, scan_positions, ENTRY_SIZE,
};
use crate::index::Index;
use crate::log::{read_window, Log};
use crate::types::{Error, Result};
use vstd::prelude::*;
use vstd::slice::slice_subrange;

verus! {

/// One log and one index for the same segment.
pub struct Handle {
    pub log: Log,
    pub index: Index,
}

impl Handle {
    /// Both files are well formed and belong to one segment.
    pub open spec fn wf(&self) -> bool {
        &&& self.log.wf()
        &&& self.index.wf()
        &&& self.log.id == self.index.id
    }

    /// The id of the segment.
    pub open spec fn id(&self) -> u64 {
        self.index.id
    }

    /// The log holds exactly the records of `payloads`, numbered from the
    /// segment's id, and the index holds for each of them the byte position
    /// where it begins.
    pub open spec fn lockstep(&self, payloads: Seq<Seq<u8>>) -> bool {
        &&& self.wf()
        &&& self.log.bytes() == encode_batch(self.id() as int, payloads)
        &&& self.index.bytes() == encode_positions(0, payloads)
    }

    /// A handle over an empty log and an empty index.
    pub fn new(id: u64) -> (handle: Handle)
        ensures
            handle.wf(),
            handle.id() == id,
            handle.log.bytes() == Seq::<u8>::empty(),
            handle.index.bytes() == Seq::<u8>::empty(),
            handle.index.next_offset == id,
            handle.lockstep(Seq::empty()),
    {
        Handle { log: Log::new(id), index: Index::new(id) }
    }

    /// A handle over the contents of a log and an index written earlier.
    pub fn open(id: u64, log_contents: Vec<u8>, index_contents: Vec<u8>) -> (handle: Handle)
        requires
            id + index_contents@.len() / 8 <= u64::MAX,
        ensures
            handle.wf(),
            handle.id() == id,
            handle.log.bytes() == log_contents@,
            handle.log.position == log_contents@.len(),
            handle.index.bytes() == index_contents@,
            handle.index.next_offset == id + index_contents@.len() / 8,
    {
        Handle { log: Log::open(id, log_contents), index: Index::open(id, index_contents) }
    }

    /// Copies raw log bytes on to the end of `target`, from the place where
    /// the record with the logical offset `offset` begins: at most `bytes`
    /// of them. An offset that the index does not hold is refused and
    /// nothing is copied.
    pub fn stream(&self, offset: u64, bytes: usize, target: &mut Vec<u8>) -> (res: Result<()>)
        requires
            self.wf(),
        ensures
            res == self.stream_result(offset),
            final(target)@ == old(target)@ + self.stream_output(offset, bytes as int),
    {
        match self.index.find_entry(offset) {
            Ok(position) => self.log.stream_entries(position, bytes, target),
            Err(e) => {
                assert(target@ =~= old(target)@ + Seq::<u8>::empty());
                Err(e)
            },
        }
    }

    /// What a read from the logical offset `offset` returns: an error for
    /// an offset that the index does not hold.
    pub open spec fn stream_result(&self, offset: u64) -> Result<()> {
        if self.index.holds(offset) {
            Ok(())
        } else {
            Err(Error::OffsetOutOfRange(offset))
        }
    }

    /// The bytes that a read of at most `max_bytes` bytes from the logical
    /// offset `offset` copies: none for an offset that the index does not
    /// hold.
    pub open spec fn stream_output(&self, offset: u64, max_bytes: int) -> Seq<u8> {
        if self.index.holds(offset) {
            read_window(
                self.log.bytes(),
                self.index.entry(offset - self.index.base_offset) as int,
                max_bytes,
            )
        } else {
            Seq::empty()
        }
    }

    /// Appends the entries in order. Each one goes to the log under the next
    /// logical offset, and the byte position where it begins goes to the
    /// index.
    pub fn add(&mut self, entries: Vec<Vec<u8>>) -> (res: Result<()>)
        requires
            old(self).wf(),
            payloads_fit(payloads_of(entries@)),
            old(self).index.next_offset + entries@.len() <= u64::MAX,
        ensures
            res is Ok,
            final(self).wf(),
            final(self).id() == old(self).id(),
            final(self).index.aligned() == old(self).index.aligned(),
            final(self).index.next_offset == old(self).index.next_offset + entries@.len(),
            final(self).log.bytes() == old(self).log.bytes() + encode_batch(
                old(self).index.next_offset as int,
                payloads_of(entries@),
            ),
            final(self).index.bytes() == old(self).index.bytes() + encode_positions(
                old(self).log.bytes().len() as int,
                payloads_of(entries@),
            ),
    {
        let ghost payloads = payloads_of(entries@);
        let ghost first = self.index.next_offset as int;
        let ghost start = self.log.data@.len() as int;
        let n = entries.len();
        let mut i: usize = 0;
        proof {
            assert(payloads.take(0) =~= Seq::<Seq<u8>>::empty());
            assert(self.log.bytes() =~= old(self).log.bytes() + Seq::<u8>::empty());
            assert(self.index.bytes() =~= old(self).index.bytes() + Seq::<u8>::empty());
        }
        while i < n
            invariant
                n == entries@.len(),
                i <= n,
                payloads == payloads_of(entries@),
                payloads_fit(payloads),
                first == old(self).index.next_offset,
                start == old(self).log.bytes().len(),
                first + n <= u64::MAX,
                self.wf(),
                self.id() == old(self).id(),
                self.index.aligned() == old(self).index.aligned(),
                self.index.next_offset == first + i,
                self.log.position == start + batch_len(payloads.take(i as int)),
                self.log.bytes() == old(self).log.bytes() + encode_batch(
                    first,
                    payloads.take(i as int),
                ),
                self.index.bytes() == old(self).index.bytes() + encode_positions(
                    start,
                    payloads.take(i as int),
                ),
            decreases n - i,
        {
            let entry = entries[i].clone();
            assert(entry@ =~= entries@[i as int]@);
            assert(payloads[i as int] == entry@);
            let log_position = self.log.position;
            let offset = self.index.next_offset;
            let ghost log_before = self.log.bytes();
            let ghost index_before = self.index.bytes();
            self.log.add_entry(offset, entry)?;
            self.index.add_entry(log_position)?;
            proof {
                let grown = payloads.take(i + 1);
                assert(grown.drop_last() =~= payloads.take(i as int));
                assert(grown.last() == payloads[i as int]);
                assert(payloads[i as int] == entry@);
                assert(self.log.bytes() =~= old(self).log.bytes() + encode_batch(first, grown));
                assert(self.index.bytes() =~= old(self).index.bytes() + encode_positions(
                    start,
                    grown,
                ));
            }
            i += 1;
        }
        proof {
            assert(payloads.take(n as int) =~= payloads);
        }
        Ok(())
    }

    /// Brings the index up to the log after a write that reached the log
    /// and not the index. A torn entry at the end of the index is dropped;
    /// then each whole record of the log that has no entry gets one, found
    /// by reading the log record header by record header. The log stays
    /// as it is.
    pub fn recover(&mut self)
        requires
            old(self).wf(),
            old(self).index.next_offset + old(self).log.bytes().len() / 12 <= u64::MAX,
        ensures
            final(self).wf(),
            final(self).id() == old(self).id(),
            final(self).log == old(self).log,
            final(self).index.aligned(),
            final(self).index.bytes() == recovered_index(
                old(self).log.bytes(),
                old(self).index.bytes(),
            ),
    {
        let ghost log = self.log.bytes();
        let len = self.log.data.len();
        let count = self.index.data.len() / ENTRY_SIZE;
        self.index.data.truncate(count * ENTRY_SIZE);
        let ghost whole = self.index.bytes();
        proof {
            assert(whole =~= old(self).index.bytes().take(8 * old(self).index.count()));
            assert(self.index.count() == old(self).index.count());
        }
        let mut at: u64 = 0;
        if count > 0 {
            let from = (count - 1) * ENTRY_SIZE;
            let last = read_u64_be(
                slice_subrange(self.index.data.as_slice(), from, from + ENTRY_SIZE),
            );
            proof {
                assert(whole.subrange(from as int, from + 8) =~= old(self).index.bytes().subrange(
                    from as int,
                    from + 8,
                ));
            }
            match self.log.record_end(last) {
                Some(end) => {
                    at = end;
                },
                None => {
                    assert(self.index.bytes() =~= whole + Seq::<u8>::empty());
                    return ;
                },
            }
        }
        let ghost start = at as int;
        proof {
            assert(resume_point(log, old(self).index.bytes()) == Some(start));
        }
        loop
            invariant
                self.wf(),
                self.id() == old(self).id(),
                self.log == old(self).log,
                log == self.log.bytes(),
                len == log.len(),
                self.index.aligned(),
                0 <= start <= at <= len,
                self.index.next_offset + (len - at) / 12 <= u64::MAX,
                self.index.bytes() + scan_positions(log, at as int) == whole + scan_positions(
                    log,
                    start,
                ),
            ensures
                self.index.bytes() == whole + scan_positions(log, start),
            decreases len - at,
        {
            match self.log.record_end(at) {
                Some(end) => {
                    let ghost before = self.index.bytes();
                    let _ = self.index.add_entry(at);
                    proof {
                        assert((before + be_bytes_u64(at)) + scan_positions(log, end as int)
                            =~= before + scan_positions(log, at as int));
                    }
                    at = end;
                },
                None => {
                    proof {
                        assert(self.index.bytes() + Seq::<u8>::empty() =~= self.index.bytes());
                    }
                    break ;
                },
            }
        }
    }

    /// The number of bytes in the log.
    pub fn log_size(&self) -> (n: u64)
        ensures
            n == self.log.bytes().len(),
    {
        self.log.size()
    }

    /// The number of bytes in the index.
    pub fn index_size(&self) -> (n: u64)
        ensures
            n == self.index.bytes().len(),
    {
        self.index.size()
    }
}

/// A handle that holds the records of `payloads` in lockstep holds, after
/// the append of `added`, the records of both in lockstep.
pub proof fn lemma_add_keeps_lockstep(
    before: Handle,
    after: Handle,
    payloads: Seq<Seq<u8>>,
    added: Seq<Seq<u8>>,
)
    requires
        before.lockstep(payloads),
        after.wf(),
        after.id() == before.id(),
        after.log.bytes() == before.log.bytes() + encode_batch(
            before.index.next_offset as int,
            added,
        ),
        after.index.bytes() == before.index.bytes() + encode_positions(
            before.log.bytes().len() as int,
            added,
        ),
    ensures
        after.lockstep(payloads + added),
{
    crate::encoding::lemma_encode_positions_len(0, payloads);
    crate::encoding::lemma_encode_batch_len(before.id() as int, payloads);
    lemma_encode_batch_concat(before.id() as int, payloads, added);
    lemma_encode_positions_concat(0, payloads, added);
}

} // verus!

verus! {

/// Offset resolution: in a handle that holds the records of `payloads` in
/// lockstep, the index holds the logical offset of record `i`, the entry
/// for it is the byte position behind the records before it, and the
/// encoding of record `i` stands at that position in the log.
pub proof fn lemma_offset_resolution(handle: Handle, payloads: Seq<Seq<u8>>, i: int)
    requires
        handle.lockstep(payloads),
        0 <= i < payloads.len(),
    ensures
        handle.id() + i <= u64::MAX,
        handle.index.holds((handle.id() + i) as u64),
        handle.index.entry(i) == batch_len(payloads.take(i)),
        handle.index.entry(i) + 12 + payloads[i].len() <= handle.log.bytes().len(),
        handle.log.bytes().subrange(
            handle.index.entry(i) as int,
            handle.index.entry(i) + 12 + payloads[i].len(),
        ) == encode_record((handle.id() + i) as u64, payloads[i]),
{
    let id = handle.id() as int;
    crate::encoding::lemma_encode_positions_len(0, payloads);
    crate::encoding::lemma_encode_positions_entry(0, payloads, i);
    crate::encoding::lemma_encode_batch_record(id, payloads, i);
    crate::encoding::lemma_encode_batch_len(id, payloads);
    let at = batch_len(payloads.take(i));
    assert(at <= handle.log.position);
    crate::encoding::lemma_be_u64_round_trip(at as u64);
}

/// Round trip: from a handle that holds the records of `payloads` in
/// lockstep, a read from the first logical offset of at least as many
/// bytes as the log holds gives bytes that decode, record header by
/// record header, to `payloads` in order.
pub proof fn lemma_round_trip(handle: Handle, payloads: Seq<Seq<u8>>, max_bytes: int)
    requires
        handle.lockstep(payloads),
        payloads_fit(payloads),
        max_bytes >= batch_len(payloads),
    ensures
        handle.stream_output(handle.id(), max_bytes) == encode_batch(handle.id() as int, payloads),
        crate::encoding::decode_records(handle.stream_output(handle.id(), max_bytes)) == payloads,
{
    let id = handle.id() as int;
    let bytes = handle.log.bytes();
    crate::encoding::lemma_encode_batch_len(id, payloads);
    crate::encoding::lemma_encode_positions_len(0, payloads);
    crate::encoding::lemma_decode_encode(id, payloads);
    if payloads.len() == 0 {
        assert(!handle.index.holds(handle.id()));
        assert(handle.stream_output(handle.id(), max_bytes) =~= bytes);
    } else {
        lemma_offset_resolution(handle, payloads, 0);
        assert(payloads.take(0) =~= Seq::<Seq<u8>>::empty());
        assert(handle.index.entry(0) == 0);
        assert(read_window(bytes, 0, max_bytes) =~= bytes);
    }
}

/// Reopening: a well-formed handle is known by its segment id and the
/// bytes of its two files. Two such handles over the same bytes have the
/// same cursor and next offset, and answer every read alike.
pub proof fn lemma_reopen_consistent(before: Handle, after: Handle)
    requires
        before.wf(),
        after.wf(),
        after.id() == before.id(),
        after.log.bytes() == before.log.bytes(),
        after.index.bytes() == before.index.bytes(),
    ensures
        after.log.position == before.log.position,
        after.index.base_offset == before.index.base_offset,
        after.index.next_offset == before.index.next_offset,
        forall|offset: u64| #[trigger] after.stream_result(offset) == before.stream_result(offset),
        forall|offset: u64, max_bytes: int| #[trigger]
            after.stream_output(offset, max_bytes) == before.stream_output(offset, max_bytes),
{
}

} // verus!

verus! {

/// Recovery: where the log holds the records of `payloads` and the index
/// the entries of the first `k` of them only, as after writes that
/// reached the log and not the index, a recovery puts the two in lockstep
/// again. A handle in lockstep comes out of a recovery as it went in.
pub proof fn lemma_recover_restores_lockstep(
    before: Handle,
    after: Handle,
    payloads: Seq<Seq<u8>>,
    k: int,
)
    requires
        before.wf(),
        payloads_fit(payloads),
        0 <= k <= payloads.len(),
        before.log.bytes() == encode_batch(before.id() as int, payloads),
        before.index.bytes() == encode_positions(0, payloads.take(k)),
        after.wf(),
        after.id() == before.id(),
        after.log.bytes() == before.log.bytes(),
        after.index.bytes() == recovered_index(before.log.bytes(), before.index.bytes()),
    ensures
        after.lockstep(payloads),
        k == payloads.len() ==> after.index.bytes() == before.index.bytes(),
{
    crate::encoding::lemma_encode_batch_len(before.id() as int, payloads);
    crate::encoding::lemma_recovered_index(before.id() as int, payloads, k);
    assert(payloads.take(payloads.len() as int) =~= payloads);
}

} // verus!

verus! {

/// Sizes in lockstep: a handle that holds the records of `payloads` in
/// lockstep has a log of twelve bytes and the payload for each record, an
/// index of eight bytes for each record, and as its next offset the
/// segment's id plus the number of records.
pub proof fn lemma_lockstep_sizes(handle: Handle, payloads: Seq<Seq<u8>>)
    requires
        handle.lockstep(payloads),
    ensures
        handle.log.bytes().len() == batch_len(payloads),
        handle.log.position == batch_len(payloads),
        handle.index.bytes().len() == 8 * payloads.len(),
        handle.index.next_offset == handle.id() + payloads.len(),
{
    crate::encoding::lemma_encode_batch_len(handle.id() as int, payloads);
    crate::encoding::lemma_encode_positions_len(0, payloads);
}

/// Positions in lockstep: the index entry of the first record is 0, and
/// the entry of each later record is greater than that of any record
/// before it.
pub proof fn lemma_lockstep_positions_ascend(handle: Handle, payloads: Seq<Seq<u8>>, i: int, j: int)
    requires
        handle.lockstep(payloads),
        0 <= i < j < payloads.len(),
    ensures
        handle.index.entry(0) == 0,
        handle.index.entry(i) < handle.index.entry(j),
{
    lemma_offset_resolution(handle, payloads, 0);
    lemma_offset_resolution(handle, payloads, i);
    lemma_offset_resolution(handle, payloads, j);
    assert(payloads.take(0) =~= Seq::<Seq<u8>>::empty());
    crate::encoding::lemma_batch_len_increases(payloads, i, j);
}

} // verus!
