//! Segments and the set of segments of one ledger.

use crate::encoding::{
    encode_batch, encode_positions, payloads_fit, payloads_of, recovered_index,
};
use crate::files::{
    index_extension, index_extension_bytes, lemma_same_values, list_files_as_u64, names_of,
    numbers_in,
};
use crate::handle::Handle;
use crate::types::Result;
use std::collections::hash_map::Entry;
use std::collections::HashMap;
use vstd::prelude::*;

verus! {

/// A slice of a ledger, named by the logical offset of its first record.
/// Its handle is absent until the first write and stays from then on.
pub struct Segment {
    pub id: u64,
    pub handle: Option<Handle>,
}

impl Segment {
    /// A handle that is there is well formed and carries the segment's id.
    pub open spec fn wf(&self) -> bool {
        match self.handle {
            Some(h) => h.wf() && h.id() == self.id,
            None => true,
        }
    }

    /// Whether the first write has happened.
    pub open spec fn is_active(&self) -> bool {
        self.handle is Some
    }

    /// The bytes of the segment's log; none before the first write.
    pub open spec fn log_bytes(&self) -> Seq<u8> {
        match self.handle {
            Some(h) => h.log.bytes(),
            None => Seq::empty(),
        }
    }

    /// The bytes of the segment's index; none before the first write.
    pub open spec fn index_bytes(&self) -> Seq<u8> {
        match self.handle {
            Some(h) => h.index.bytes(),
            None => Seq::empty(),
        }
    }

    /// The logical offset that the next record will get.
    pub open spec fn next_offset(&self) -> u64 {
        match self.handle {
            Some(h) => h.index.next_offset,
            None => self.id,
        }
    }

    /// The segment holds exactly the records of `payloads`, numbered from
    /// its id, and for each of them the byte position where it begins.
    /// Before the first write that is so of no records.
    pub open spec fn lockstep(&self, payloads: Seq<Seq<u8>>) -> bool {
        match self.handle {
            Some(h) => h.lockstep(payloads) && h.id() == self.id,
            None => payloads.len() == 0,
        }
    }

    /// `after` is `before` with the records of `payloads` appended to its
    /// log under the next logical offsets, and their byte positions to its
    /// index.
    pub open spec fn appended(before: Segment, after: Segment, payloads: Seq<Seq<u8>>) -> bool {
        &&& after.wf()
        &&& after.is_active()
        &&& after.id == before.id
        &&& after.next_offset() == before.next_offset() + payloads.len()
        &&& after.log_bytes() == before.log_bytes() + encode_batch(
            before.next_offset() as int,
            payloads,
        )
        &&& after.index_bytes() == before.index_bytes() + encode_positions(
            before.log_bytes().len() as int,
            payloads,
        )
    }

    /// A segment that nothing was written to yet.
    pub fn new(id: u64) -> (segment: Segment)
        ensures
            segment == (Segment { id, handle: None }),
    {
        Segment { id, handle: None }
    }

    /// A segment over the contents of a log and an index written earlier,
    /// after a recovery that gives each whole record of the log its index
    /// entry. Its size and its next offset follow from those contents.
    pub fn open(id: u64, log_contents: Vec<u8>, index_contents: Vec<u8>) -> (segment: Segment)
        requires
            id + index_contents@.len() / 8 + log_contents@.len() / 12 <= u64::MAX,
        ensures
            Segment::opened(segment, id, log_contents@, index_contents@),
    {
        let mut handle = Handle::open(id, log_contents, index_contents);
        handle.recover();
        Segment { id, handle: Some(handle) }
    }

    /// `segment` is the segment `id` as a log and an index with the given
    /// contents hold it.
    pub open spec fn opened(segment: Segment, id: u64, log: Seq<u8>, index: Seq<u8>) -> bool {
        &&& segment.wf()
        &&& segment.is_active()
        &&& segment.id == id
        &&& segment.log_bytes() == log
        &&& segment.index_bytes() == recovered_index(log, index)
        &&& segment.next_offset() == id + recovered_index(log, index).len() / 8
    }

    /// Appends the entries in order; the first write brings the handle
    /// into being.
    pub fn add(&mut self, entries: Vec<Vec<u8>>) -> (res: Result<()>)
        requires
            old(self).wf(),
            payloads_fit(payloads_of(entries@)),
            old(self).next_offset() + entries@.len() <= u64::MAX,
        ensures
            res is Ok,
            Segment::appended(*old(self), *final(self), payloads_of(entries@)),
    {
        let mut handle = match self.handle.take() {
            Some(h) => h,
            None => Handle::new(self.id),
        };
        let res = handle.add(entries);
        self.handle = Some(handle);
        res
    }

    /// Copies raw log bytes on to the end of `target`, from the place where
    /// the record with the logical offset `offset` begins: at most `bytes`
    /// of them. Before the first write there is nothing to copy, which is
    /// no error.
    pub fn stream(&self, offset: u64, bytes: usize, target: &mut Vec<u8>) -> (res: Result<()>)
        requires
            self.wf(),
        ensures
            res == self.stream_result(offset),
            final(target)@ == old(target)@ + self.stream_output(offset, bytes as int),
    {
        match &self.handle {
            Some(handle) => handle.stream(offset, bytes, target),
            None => {
                assert(target@ =~= old(target)@ + Seq::<u8>::empty());
                Ok(())
            },
        }
    }

    /// What a read from the logical offset `offset` returns: an error for
    /// an offset that an active segment's index does not hold.
    pub open spec fn stream_result(&self, offset: u64) -> Result<()> {
        match self.handle {
            Some(h) => h.stream_result(offset),
            None => Ok(()),
        }
    }

    /// The bytes that a read of at most `max_bytes` bytes from the logical
    /// offset `offset` copies.
    pub open spec fn stream_output(&self, offset: u64, max_bytes: int) -> Seq<u8> {
        match self.handle {
            Some(h) => h.stream_output(offset, max_bytes),
            None => Seq::empty(),
        }
    }

    /// The number of bytes in the segment's log; zero before the first
    /// write.
    pub fn size(&self) -> (n: u64)
        ensures
            n == self.log_bytes().len(),
    {
        match &self.handle {
            Some(h) => h.log_size(),
            None => 0,
        }
    }
}

/// The segments of one ledger, each under its id.
pub struct Segments {
    pub map: HashMap<u64, Segment>,
}

impl Segments {
    /// Each segment is well formed and stands under its own id.
    pub open spec fn wf(&self) -> bool {
        forall|id: u64| #[trigger]
            self.map@.contains_key(id) ==> self.map@[id].wf() && self.map@[id].id == id
    }

    /// The ids of the segments.
    pub open spec fn ids(&self) -> Set<u64> {
        self.map@.dom()
    }

    /// The segment under `id`; one that nothing was written to where the
    /// set has none.
    pub open spec fn segment(&self, id: u64) -> Segment {
        if self.map@.contains_key(id) {
            self.map@[id]
        } else {
            Segment { id, handle: None }
        }
    }

    /// The set of the segments found in a listing of file names: one
    /// segment for each index file whose stem writes a segment id, none of
    /// them written to yet.
    pub fn open(names: &Vec<Vec<u8>>) -> (segments: Segments)
        ensures
            segments.wf(),
            segments.ids() == numbers_in(names_of(names@), index_extension()).to_set(),
            forall|id: u64| #[trigger]
                segments.map@.contains_key(id) ==> segments.map@[id] == (Segment {
                    id,
                    handle: None,
                }),
    {
        let wanted = index_extension_bytes();
        let ids = list_files_as_u64(names, wanted.as_slice());
        proof {
            lemma_same_values(ids@, numbers_in(names_of(names@), index_extension()));
        }
        Segments::with_ids(ids)
    }

    /// The set of the segments with the given ids, none of them written
    /// to yet.
    pub fn with_ids(ids: Vec<u64>) -> (segments: Segments)
        ensures
            segments.wf(),
            segments.ids() == ids@.to_set(),
            forall|id: u64| #[trigger]
                segments.map@.contains_key(id) ==> segments.map@[id] == (Segment {
                    id,
                    handle: None,
                }),
    {
        let mut map: HashMap<u64, Segment> = HashMap::new();
        let mut i: usize = 0;
        while i < ids.len()
            invariant
                i <= ids@.len(),
                map@.dom() == ids@.take(i as int).to_set(),
                forall|id: u64| #[trigger]
                    map@.contains_key(id) ==> map@[id] == (Segment { id, handle: None }),
            decreases ids@.len() - i,
        {
            let id = ids[i];
            map.insert(id, Segment::new(id));
            proof {
                assert(ids@.take(i + 1) =~= ids@.take(i as int).push(id));
                ids@.take(i as int).lemma_push_to_set_commute(id);
            }
            i += 1;
        }
        proof {
            assert(ids@.take(ids@.len() as int) =~= ids@);
        }
        Segments { map }
    }

    /// Puts a segment that nothing was written to under `id`, in place of
    /// any that stood there, and hands it out.
    pub fn create(&mut self, id: u64) -> (res: Result<&mut Segment>)
        ensures
            res is Ok,
            *res->Ok_0 == (Segment { id, handle: None }),
            final(self).map@ == old(self).map@.insert(id, *final(res->Ok_0)),
    {
        self.map.insert(id, Segment::new(id));
        Ok(self.map.entry(id).or_insert(Segment::new(id)))
    }

    /// Puts `segment` under its id, in place of any that stood there.
    pub fn insert(&mut self, segment: Segment)
        requires
            old(self).wf(),
            segment.wf(),
        ensures
            final(self).wf(),
            final(self).map@ == old(self).map@.insert(segment.id, segment),
    {
        self.map.insert(segment.id, segment);
    }

    /// The segment under `id`, if there is one.
    pub fn get(&self, id: u64) -> (res: Option<&Segment>)
        ensures
            self.map@.contains_key(id) ==> res == Some(&self.map@[id]),
            !self.map@.contains_key(id) ==> res is None,
    {
        self.map.get(&id)
    }

    /// The segment under `id`, after putting one that nothing was written
    /// to there where the set had none.
    pub fn create_if_absent(&mut self, id: u64) -> (segment: &mut Segment)
        ensures
            *segment == old(self).segment(id),
            final(self).map@ == old(self).map@.insert(id, *final(segment)),
    {
        self.map.entry(id).or_insert(Segment::new(id))
    }

    /// The segment under `id`, if there is one, to be changed in place.
    pub fn get_mut(&mut self, id: u64) -> (res: Option<&mut Segment>)
        ensures
            res is Some == old(self).map@.contains_key(id),
            res is Some ==> *res->Some_0 == old(self).map@[id],
            res is Some ==> final(self).map@ == old(self).map@.insert(id, *final(res->Some_0)),
            res is None ==> final(self).map@ == old(self).map@,
    {
        match self.map.entry(id) {
            Entry::Occupied(entry) => Some(entry.into_mut()),
            Entry::Vacant(_) => None,
        }
    }

    /// The number of segments.
    pub fn len(&self) -> (n: usize)
        ensures
            n == self.ids().len(),
    {
        self.map.len()
    }
}

} // verus!

verus! {

/// Reopening: a segment that holds the records of `payloads` in
/// lockstep, opened again over the contents of its two files, holds the
/// same records in lockstep, with the same index, size and next offset,
/// and answers every read alike.
pub proof fn lemma_reopen_consistent(before: Segment, after: Segment, payloads: Seq<Seq<u8>>)
    requires
        before.is_active(),
        before.lockstep(payloads),
        payloads_fit(payloads),
        Segment::opened(after, before.id, before.log_bytes(), before.index_bytes()),
    ensures
        after.lockstep(payloads),
        after.index_bytes() == before.index_bytes(),
        after.log_bytes().len() == before.log_bytes().len(),
        after.next_offset() == before.next_offset(),
        forall|offset: u64| #[trigger] after.stream_result(offset) == before.stream_result(offset),
        forall|offset: u64, max_bytes: int| #[trigger]
            after.stream_output(offset, max_bytes) == before.stream_output(offset, max_bytes),
{
    let b = before.handle->Some_0;
    let a = after.handle->Some_0;
    assert(payloads.take(payloads.len() as int) =~= payloads);
    crate::handle::lemma_recover_restores_lockstep(b, a, payloads, payloads.len() as int);
    crate::handle::lemma_reopen_consistent(b, a);
}

/// Appending keeps lockstep: a segment that held the records of
/// `payloads` holds, after the append of `added`, the records of both.
pub proof fn lemma_appended_keeps_lockstep(
    before: Segment,
    after: Segment,
    payloads: Seq<Seq<u8>>,
    added: Seq<Seq<u8>>,
)
    requires
        before.wf(),
        before.lockstep(payloads),
        Segment::appended(before, after, added),
    ensures
        after.lockstep(payloads + added),
{
    let h = after.handle->Some_0;
    match before.handle {
        Some(b) => {
            crate::handle::lemma_add_keeps_lockstep(b, h, payloads, added);
        },
        None => {
            assert(payloads + added =~= added);
            assert(h.log.bytes() =~= encode_batch(before.id as int, added));
            assert(h.index.bytes() =~= encode_positions(0, added));
        },
    }
}

/// Round trip: from a segment that holds the records of `payloads` in
/// lockstep, a read from its first logical offset of at least as many
/// bytes as the records take gives their encoding, which decodes, record
/// header by record header, to `payloads` in order.
pub proof fn lemma_round_trip(segment: Segment, payloads: Seq<Seq<u8>>, max_bytes: int)
    requires
        segment.lockstep(payloads),
        payloads_fit(payloads),
        max_bytes >= crate::encoding::batch_len(payloads),
    ensures
        payloads.len() > 0 ==> segment.stream_result(segment.id) is Ok,
        segment.stream_output(segment.id, max_bytes) == encode_batch(segment.id as int, payloads),
        crate::encoding::decode_records(segment.stream_output(segment.id, max_bytes)) == payloads,
{
    match segment.handle {
        Some(h) => {
            crate::handle::lemma_round_trip(h, payloads, max_bytes);
            if payloads.len() > 0 {
                crate::handle::lemma_offset_resolution(h, payloads, 0);
            }
        },
        None => {
            assert(payloads =~= Seq::<Seq<u8>>::empty());
            crate::encoding::lemma_decode_encode(segment.id as int, payloads);
        },
    }
}

/// Offset resolution: in a segment that holds the records of `payloads`
/// in lockstep, a read from the logical offset of record `i` starts at
/// the byte position behind the records before it, where the encoding of
/// record `i` stands, and a read of as many bytes as that record takes
/// gives exactly its encoding.
pub proof fn lemma_offset_resolution(segment: Segment, payloads: Seq<Seq<u8>>, i: int)
    requires
        segment.lockstep(payloads),
        0 <= i < payloads.len(),
    ensures
        segment.id + i <= u64::MAX,
        segment.stream_result((segment.id + i) as u64) is Ok,
        segment.stream_output((segment.id + i) as u64, 12 + payloads[i].len() as int)
            == crate::encoding::encode_record((segment.id + i) as u64, payloads[i]),
        segment.stream_output((segment.id + i) as u64, 12 + payloads[i].len() as int)
            == segment.log_bytes().subrange(
            crate::encoding::batch_len(payloads.take(i)) as int,
            crate::encoding::batch_len(payloads.take(i)) as int + 12 + payloads[i].len(),
        ),
{
    let h = segment.handle->Some_0;
    crate::handle::lemma_offset_resolution(h, payloads, i);
    let at = h.index.entry(i) as int;
    assert(h.index.entry((segment.id + i) as u64 - h.index.base_offset) == h.index.entry(i));
    assert(crate::log::read_window(h.log.bytes(), at, 12 + payloads[i].len() as int)
        =~= h.log.bytes().subrange(at, at + 12 + payloads[i].len()));
}

} // verus!
