//! Ledgers and the repository that holds them by id.

use crate::encoding::{payloads_fit, payloads_of};
use crate::segment::{Segment, Segments};
use crate::types::{Error, Result};
use uuid::Uuid;
use vstd::prelude::*;

verus! {

/// The number of characters in the id of a ledger.
pub const ID_LENGTH: usize = 36;

/// `uuid::Uuid::new_v4` and the text that `Display` gives for it: a random
/// identifier in its hyphenated form, which always has 36 characters.
/// Nothing else is claimed of it; two calls may or may not differ.
#[verifier::external_body]
pub(crate) fn fresh_id() -> (id: String)
    ensures
        id@.len() == ID_LENGTH,
{
    Uuid::new_v4().to_string()
}

/// An append-only stream of records, split into segments. A write goes to
/// the segment that the caller names, unless that segment has reached
/// `segment_size` bytes.
pub struct Ledger {
    pub id: String,
    pub segment_size: u64,
    pub segments: Segments,
}

impl Ledger {
    /// The segments are well formed.
    pub open spec fn wf(&self) -> bool {
        self.segments.wf()
    }

    /// The segment under `segment_id` has reached the size threshold.
    pub open spec fn is_full(&self, segment_id: u64) -> bool {
        self.segments.segment(segment_id).log_bytes().len() >= self.segment_size
    }

    /// A ledger without segments under a fresh id of 36 characters.
    pub fn new(segment_size: u64) -> (ledger: Ledger)
        ensures
            ledger.wf(),
            ledger.id@.len() == ID_LENGTH,
            ledger.segment_size == segment_size,
            ledger.segments.ids() == Set::<u64>::empty(),
    {
        Ledger::with_id(fresh_id(), segment_size)
    }

    /// A ledger without segments under the id `id`.
    pub fn with_id(id: String, segment_size: u64) -> (ledger: Ledger)
        ensures
            ledger.wf(),
            ledger.id == id,
            ledger.segment_size == segment_size,
            ledger.segments.ids() == Set::<u64>::empty(),
    {
        let segments = Segments::with_ids(Vec::new());
        assert(Seq::<u64>::empty().to_set() =~= Set::<u64>::empty());
        Ledger { id, segment_size, segments }
    }

    /// The ledger `id` as found in storage. `files` is `None` where the
    /// ledger has no directory, and there is no ledger then. Otherwise it
    /// holds, for each segment found there, its id and the contents of its
    /// log and of its index, and the ledger has exactly those segments,
    /// each with the size and the next offset that follow from its files.
    /// Where an id comes more than once, its first entry counts.
    pub fn open(
        id: String,
        segment_size: u64,
        files: Option<Vec<(u64, Vec<u8>, Vec<u8>)>>,
    ) -> (res: Option<Ledger>)
        requires
            files is Some ==> forall|k: int|
                0 <= k < files->Some_0@.len() ==> Ledger::fits(#[trigger] files->Some_0@[k]),
        ensures
            files is None ==> res is None,
            files is Some ==> res is Some && Ledger::opened(
                res->Some_0,
                id,
                segment_size,
                files->Some_0@,
            ),
    {
        match files {
            None => None,
            Some(files) => {
                let ghost all = files@;
                let mut files = files;
                let mut ledger = Ledger::with_id(id, segment_size);
                while files.len() > 0
                    invariant
                        files@.len() <= all.len(),
                        files@ == all.take(files@.len() as int),
                        forall|k: int| 0 <= k < all.len() ==> Ledger::fits(#[trigger] all[k]),
                        ledger.wf(),
                        ledger.id == id,
                        ledger.segment_size == segment_size,
                        forall|s: u64|
                            ledger.segments.ids().contains(s) <==> Ledger::stored(
                                all,
                                files@.len() as int,
                                s,
                            ),
                        forall|k: int|
                            files@.len() <= k < all.len() && #[trigger] Ledger::first_entry(
                                all,
                                files@.len() as int,
                                k,
                            ) ==> Segment::opened(
                                ledger.segments.segment(all[k].0),
                                all[k].0,
                                all[k].1@,
                                all[k].2@,
                            ),
                    decreases files@.len(),
                {
                    let ghost n = files@.len() as int;
                    let ghost before = ledger;
                    let (segment_id, log, index) = files.pop().unwrap();
                    assert(all[n - 1] == (segment_id, log, index));
                    ledger.restore(segment_id, log, index);
                    proof {
                        assert(files@ =~= all.take(n - 1));
                        assert forall|s: u64|
                            ledger.segments.ids().contains(s) == Ledger::stored(
                                all,
                                n - 1,
                                s,
                            ) by {
                            if Ledger::stored(all, n, s) {
                                let k = choose|k: int|
                                    n <= k < all.len() && (#[trigger] all[k]).0 == s;
                                assert(n - 1 <= k < all.len() && all[k].0 == s);
                            }
                            if Ledger::stored(all, n - 1, s) && s != segment_id {
                                let k = choose|k: int|
                                    n - 1 <= k < all.len() && (#[trigger] all[k]).0 == s;
                                assert(n <= k < all.len() && all[k].0 == s);
                            }
                        }
                        assert forall|k: int|
                            n - 1 <= k < all.len() && #[trigger] Ledger::first_entry(
                                all,
                                n - 1,
                                k,
                            ) implies Segment::opened(
                            ledger.segments.segment(all[k].0),
                            all[k].0,
                            all[k].1@,
                            all[k].2@,
                        ) by {
                            if k >= n {
                                assert(all[n - 1].0 != all[k].0);
                                assert(Ledger::first_entry(all, n, k));
                                assert(ledger.segments.segment(all[k].0) == before.segments.segment(
                                    all[k].0,
                                ));
                            }
                        }
                    }
                }
                Some(ledger)
            },
        }
    }

    /// The segment's offsets fit 64 bits, whatever its files hold: its id,
    /// one offset for each index entry and one for each record that the
    /// log can hold.
    pub open spec fn fits(file: (u64, Vec<u8>, Vec<u8>)) -> bool {
        file.0 + file.2@.len() / 8 + file.1@.len() / 12 <= u64::MAX
    }

    /// An entry of `files` at `from` or behind it carries the segment id
    /// `segment_id`.
    pub open spec fn stored(files: Seq<(u64, Vec<u8>, Vec<u8>)>, from: int, segment_id: u64) -> bool {
        exists|k: int| from <= k < files.len() && (#[trigger] files[k]).0 == segment_id
    }

    /// No entry of `files` from `from` up to `k` carries the segment id of
    /// entry `k`.
    pub open spec fn first_entry(files: Seq<(u64, Vec<u8>, Vec<u8>)>, from: int, k: int) -> bool {
        forall|j: int| from <= j < k ==> (#[trigger] files[j]).0 != files[k].0
    }

    /// `ledger` is the ledger `id` as the files of its segments hold it.
    pub open spec fn opened(
        ledger: Ledger,
        id: String,
        segment_size: u64,
        files: Seq<(u64, Vec<u8>, Vec<u8>)>,
    ) -> bool {
        &&& ledger.wf()
        &&& ledger.id == id
        &&& ledger.segment_size == segment_size
        &&& forall|s: u64| ledger.segments.ids().contains(s) <==> Ledger::stored(files, 0, s)
        &&& forall|k: int|
            0 <= k < files.len() && #[trigger] Ledger::first_entry(files, 0, k) ==> Segment::opened(
                ledger.segments.segment(files[k].0),
                files[k].0,
                files[k].1@,
                files[k].2@,
            )
    }

    /// Puts the segment `segment_id` into the ledger as its two files hold
    /// it, after a recovery of its index: its size and next offset follow
    /// from their contents. The other segments stay as they are.
    pub fn restore(&mut self, segment_id: u64, log_contents: Vec<u8>, index_contents: Vec<u8>)
        requires
            old(self).wf(),
            segment_id + index_contents@.len() / 8 + log_contents@.len() / 12 <= u64::MAX,
        ensures
            final(self).wf(),
            final(self).id == old(self).id,
            final(self).segment_size == old(self).segment_size,
            final(self).segments.ids() == old(self).segments.ids().insert(segment_id),
            forall|other: u64|
                other != segment_id ==> #[trigger] final(self).segments.segment(other) == old(self)
                    .segments.segment(other),
            Segment::opened(
                final(self).segments.segment(segment_id),
                segment_id,
                log_contents@,
                index_contents@,
            ),
    {
        self.segments.insert(Segment::open(segment_id, log_contents, index_contents));
    }

    /// Appends the entries in order to the segment `segment_id`, which is
    /// brought into being where the ledger had none. A segment that has
    /// reached the size threshold takes nothing: the whole batch is
    /// refused. The size is tested before the write, so the write may carry
    /// the segment past the threshold.
    pub fn add(&mut self, segment_id: u64, entries: Vec<Vec<u8>>) -> (res: Result<()>)
        requires
            old(self).wf(),
            payloads_fit(payloads_of(entries@)),
            old(self).segments.segment(segment_id).next_offset() + entries@.len() <= u64::MAX,
        ensures
            final(self).wf(),
            final(self).id == old(self).id,
            final(self).segment_size == old(self).segment_size,
            final(self).segments.ids() == old(self).segments.ids().insert(segment_id),
            forall|other: u64|
                other != segment_id ==> #[trigger] final(self).segments.segment(other) == old(self)
                    .segments.segment(other),
            old(self).is_full(segment_id) ==> res == Err::<(), Error>(
                Error::SegmentFull(segment_id),
            ) && final(self).segments.segment(segment_id) == old(self).segments.segment(segment_id),
            !old(self).is_full(segment_id) ==> res is Ok && Segment::appended(
                old(self).segments.segment(segment_id),
                final(self).segments.segment(segment_id),
                payloads_of(entries@),
            ),
    {
        let threshold = self.segment_size;
        let segment = self.segments.create_if_absent(segment_id);
        if segment.size() >= threshold {
            Err(Error::SegmentFull(segment_id))
        } else {
            segment.add(entries)
        }
    }

    /// Copies raw log bytes of the segment `segment_id` on to the end of
    /// `target`, from the place where the record with the logical offset
    /// `offset` begins: at most `bytes` of them. A segment that the ledger
    /// does not have, or that nothing was written to, gives nothing, which
    /// is no error.
    pub fn stream(&self, segment_id: u64, offset: u64, bytes: usize, target: &mut Vec<u8>) -> (res:
        Result<()>)
        requires
            self.wf(),
        ensures
            res == self.segments.segment(segment_id).stream_result(offset),
            final(target)@ == old(target)@ + self.segments.segment(segment_id).stream_output(
                offset,
                bytes as int,
            ),
    {
        match self.segments.get(segment_id) {
            Some(segment) => segment.stream(offset, bytes, target),
            None => {
                assert(target@ =~= old(target)@ + Seq::<u8>::empty());
                Ok(())
            },
        }
    }

    /// The number of bytes in the log of the segment `segment_id`; zero for
    /// a segment that the ledger does not have.
    pub fn segment_size(&self, segment_id: u64) -> (n: u64)
        ensures
            n == self.segments.segment(segment_id).log_bytes().len(),
    {
        match self.segments.get(segment_id) {
            Some(segment) => segment.size(),
            None => 0,
        }
    }
}

} // verus!

verus! {

/// The ledgers of one process, each under its own id.
pub struct LedgerRepository {
    pub ledgers: Vec<Ledger>,
}

impl LedgerRepository {
    /// The repository has a ledger under `id`.
    pub open spec fn holds(&self, id: Seq<char>) -> bool {
        exists|i: int| 0 <= i < self.ledgers@.len() && (#[trigger] self.ledgers@[i]).id@ == id
    }

    /// A place in the repository where a ledger under `id` stands.
    pub open spec fn position(&self, id: Seq<char>) -> int {
        choose|i: int| 0 <= i < self.ledgers@.len() && (#[trigger] self.ledgers@[i]).id@ == id
    }

    /// The ledger under `id`, where the repository holds one.
    pub open spec fn ledger(&self, id: Seq<char>) -> Ledger {
        self.ledgers@[self.position(id)]
    }

    /// The number of ledgers.
    pub open spec fn count(&self) -> nat {
        self.ledgers@.len()
    }

    /// No two ledgers share an id, and each ledger is well formed.
    pub open spec fn wf(&self) -> bool {
        &&& forall|i: int, j: int|
            0 <= i < j < self.ledgers@.len() ==> (#[trigger] self.ledgers@[i]).id@ != (
            #[trigger] self.ledgers@[j]).id@
        &&& forall|i: int| 0 <= i < self.ledgers@.len() ==> (#[trigger] self.ledgers@[i]).wf()
    }

    /// A repository without ledgers.
    pub fn new() -> (repository: LedgerRepository)
        ensures
            repository.wf(),
            repository.count() == 0,
            forall|id: Seq<char>| !repository.holds(id),
    {
        LedgerRepository { ledgers: Vec::new() }
    }

    /// Makes a ledger under a fresh id of 36 characters, without segments,
    /// puts it into the repository and returns its id. Whatever id came
    /// out, the repository holds exactly one ledger under it afterwards,
    /// and every ledger under another id is as it was.
    pub fn create(&mut self, segment_size: u64) -> (id: String)
        requires
            old(self).wf(),
        ensures
            id@.len() == ID_LENGTH,
            LedgerRepository::inserted(*old(self), *final(self), id@),
            final(self).ledger(id@).segment_size == segment_size,
            final(self).ledger(id@).segments.ids() == Set::<u64>::empty(),
    {
        let ledger = Ledger::new(segment_size);
        let id = ledger.id.clone();
        self.insert(ledger);
        id
    }

    /// Puts `ledger` into the repository under its id, in place of any
    /// ledger that stood there.
    pub fn insert(&mut self, ledger: Ledger)
        requires
            old(self).wf(),
            ledger.wf(),
        ensures
            LedgerRepository::inserted(*old(self), *final(self), ledger.id@),
            final(self).ledger(ledger.id@) == ledger,
    {
        let ghost id = ledger.id@;
        let mut i: usize = 0;
        while i < self.ledgers.len()
            invariant
                i <= self.ledgers@.len(),
                self.ledgers@ == old(self).ledgers@,
                old(self).wf(),
                ledger.wf(),
                id == ledger.id@,
                forall|k: int| 0 <= k < i ==> (#[trigger] self.ledgers@[k]).id@ != id,
            decreases self.ledgers@.len() - i,
        {
            if self.ledgers[i].id == ledger.id {
                self.ledgers.set(i, ledger);
                proof {
                    assert(old(self).ledgers@[i as int].id@ == id);
                    LedgerRepository::lemma_same_ids(*old(self), *self, id, i as int);
                }
                return ;
            }
            i += 1;
        }
        self.ledgers.push(ledger);
        proof {
            assert(self.ledgers@.drop_last() =~= old(self).ledgers@);
            LedgerRepository::lemma_new_id(*old(self), *self, id);
        }
    }

    /// Putting a ledger in the place of one with the same id keeps every
    /// other ledger where it was.
    proof fn lemma_same_ids(before: LedgerRepository, after: LedgerRepository, id: Seq<char>, at: int)
        requires
            before.wf(),
            0 <= at < before.ledgers@.len(),
            before.ledgers@[at].id@ == id,
            after.ledgers@ == before.ledgers@.update(at, after.ledgers@[at]),
            after.ledgers@.len() == before.ledgers@.len(),
            after.ledgers@[at].id@ == id,
            after.ledgers@[at].wf(),
        ensures
            LedgerRepository::inserted(before, after, id),
            after.ledger(id) == after.ledgers@[at],
    {
        assert forall|k: int| 0 <= k < after.ledgers@.len() implies (#[trigger] after.ledgers@[k]).id@
            == before.ledgers@[k].id@ by {}
        assert(after.wf());
        assert(after.holds(id));
        assert(before.holds(id));
        after.lemma_ledger_at(id, at);
        assert forall|other: Seq<char>| other != id implies (#[trigger] after.holds(other))
            == before.holds(other) by {
            if before.holds(other) {
                let k = before.position(other);
                assert(after.ledgers@[k].id@ == other);
            }
            if after.holds(other) {
                let k = after.position(other);
                assert(before.ledgers@[k].id@ == other);
            }
        }
        assert forall|other: Seq<char>| other != id && before.holds(other) implies (
        #[trigger] after.ledger(other)) == before.ledger(other) by {
            let k = before.position(other);
            assert(after.ledgers@[k].id@ == other);
            after.lemma_ledger_at(other, k);
        }
    }

    /// Putting a ledger under an id that no ledger had behind the others
    /// keeps every other ledger where it was.
    proof fn lemma_new_id(before: LedgerRepository, after: LedgerRepository, id: Seq<char>)
        requires
            before.wf(),
            after.ledgers@.len() == before.ledgers@.len() + 1,
            after.ledgers@.drop_last() == before.ledgers@,
            after.ledgers@.last().id@ == id,
            after.ledgers@.last().wf(),
            forall|k: int| 0 <= k < before.ledgers@.len() ==> (#[trigger] before.ledgers@[k]).id@ != id,
        ensures
            LedgerRepository::inserted(before, after, id),
            after.ledger(id) == after.ledgers@.last(),
    {
        let n = before.ledgers@.len() as int;
        assert forall|k: int| 0 <= k < n implies (#[trigger] after.ledgers@[k])
            == before.ledgers@[k] by {
            assert(after.ledgers@.drop_last()[k] == after.ledgers@[k]);
        }
        assert(after.wf());
        assert(after.ledgers@[n].id@ == id);
        assert(after.holds(id));
        assert(!before.holds(id));
        after.lemma_ledger_at(id, n);
        assert forall|other: Seq<char>| other != id implies (#[trigger] after.holds(other))
            == before.holds(other) by {
            if before.holds(other) {
                let k = before.position(other);
                assert(after.ledgers@[k].id@ == other);
            }
            if after.holds(other) {
                let k = after.position(other);
                assert(before.ledgers@[k].id@ == other);
            }
        }
        assert forall|other: Seq<char>| other != id && before.holds(other) implies (
        #[trigger] after.ledger(other)) == before.ledger(other) by {
            let k = before.position(other);
            assert(after.ledgers@[k].id@ == other);
            after.lemma_ledger_at(other, k);
        }
    }

    /// In a well-formed repository the ledger under an id is the one at
    /// any place that carries this id.
    pub proof fn lemma_ledger_at(&self, id: Seq<char>, at: int)
        requires
            self.wf(),
            0 <= at < self.ledgers@.len(),
            self.ledgers@[at].id@ == id,
        ensures
            self.holds(id),
            self.position(id) == at,
            self.ledger(id) == self.ledgers@[at],
    {
        let k = self.position(id);
        assert(self.ledgers@[k].id@ == id);
    }

    /// `after` is `before` with a ledger put under `id`: it is well formed
    /// and holds `id`; it holds any other id if and only if `before` did,
    /// with the same ledger; and it has one ledger more than `before`
    /// unless `before` held `id` already.
    pub open spec fn inserted(before: LedgerRepository, after: LedgerRepository, id: Seq<char>) -> bool {
        &&& after.wf()
        &&& after.holds(id)
        &&& after.ledger(id).id@ == id
        &&& forall|other: Seq<char>|
            other != id ==> (#[trigger] after.holds(other)) == before.holds(other)
        &&& forall|other: Seq<char>|
            other != id && before.holds(other) ==> (#[trigger] after.ledger(other))
                == before.ledger(other)
        &&& after.count() == if before.holds(id) {
            before.count()
        } else {
            before.count() + 1
        }
    }

    /// The ledger under `id`, if the repository holds one.
    pub fn get(&self, id: &String) -> (res: Option<&Ledger>)
        requires
            self.wf(),
        ensures
            self.holds(id@) ==> res == Some(&self.ledger(id@)),
            !self.holds(id@) ==> res is None,
    {
        let mut i: usize = 0;
        while i < self.ledgers.len()
            invariant
                i <= self.ledgers@.len(),
                self.wf(),
                forall|k: int| 0 <= k < i ==> (#[trigger] self.ledgers@[k]).id@ != id@,
            decreases self.ledgers@.len() - i,
        {
            if self.ledgers[i].id == *id {
                proof {
                    self.lemma_ledger_at(id@, i as int);
                }
                return Some(&self.ledgers[i]);
            }
            i += 1;
        }
        None
    }

    /// The number of ledgers in the repository.
    pub fn len(&self) -> (n: usize)
        ensures
            n == self.count(),
    {
        self.ledgers.len()
    }

    /// The ledger under `id`, if the repository holds one, to be changed
    /// in place.
    pub fn get_mut(&mut self, id: &String) -> (res: Option<&mut Ledger>)
        requires
            old(self).wf(),
        ensures
            res is Some == old(self).holds(id@),
            res is Some ==> *res->Some_0 == old(self).ledger(id@),
            res is Some ==> final(self).ledgers@ == old(self).ledgers@.update(
                old(self).position(id@),
                *final(res->Some_0),
            ),
            res is None ==> final(self).ledgers@ == old(self).ledgers@,
    {
        let mut i: usize = 0;
        while i < self.ledgers.len()
            invariant
                i <= self.ledgers@.len(),
                self.ledgers@ == old(self).ledgers@,
                old(self).wf(),
                forall|k: int| 0 <= k < i ==> (#[trigger] self.ledgers@[k]).id@ != id@,
            decreases self.ledgers@.len() - i,
        {
            if self.ledgers[i].id == *id {
                proof {
                    old(self).lemma_ledger_at(id@, i as int);
                }
                return Some(&mut self.ledgers[i]);
            }
            i += 1;
        }
        None
    }
}

/// A repository without ledgers.
pub fn new_repository() -> (repository: LedgerRepository)
    ensures
        repository.wf(),
        repository.count() == 0,
        forall|id: Seq<char>| !repository.holds(id),
{
    LedgerRepository::new()
}

} // verus!

verus! {

/// Round trip through a ledger: where the segment `segment_id` held the
/// records of `payloads` in lockstep and a write appended those of
/// `added`, a read from the segment's first logical offset of at least as
/// many bytes as all the records take gives bytes that decode, record
/// header by record header, to the payloads of both in order.
pub proof fn lemma_round_trip(
    before: Ledger,
    after: Ledger,
    segment_id: u64,
    payloads: Seq<Seq<u8>>,
    added: Seq<Seq<u8>>,
    max_bytes: int,
)
    requires
        before.wf(),
        before.segments.segment(segment_id).lockstep(payloads),
        Segment::appended(
            before.segments.segment(segment_id),
            after.segments.segment(segment_id),
            added,
        ),
        payloads_fit(payloads + added),
        max_bytes >= crate::encoding::batch_len(payloads + added),
    ensures
        after.segments.segment(segment_id).lockstep(payloads + added),
        crate::encoding::decode_records(
            after.segments.segment(segment_id).stream_output(segment_id, max_bytes),
        ) == payloads + added,
{
    let b = before.segments.segment(segment_id);
    let a = after.segments.segment(segment_id);
    crate::segment::lemma_appended_keeps_lockstep(b, a, payloads, added);
    crate::segment::lemma_round_trip(a, payloads + added, max_bytes);
}

/// Offset resolution through a ledger: where the segment `segment_id`
/// holds the records of `payloads` in lockstep, a read from the logical
/// offset `segment_id + i` of as many bytes as record `i` takes gives
/// exactly the encoding of record `i`.
pub proof fn lemma_offset_resolution(
    ledger: Ledger,
    segment_id: u64,
    payloads: Seq<Seq<u8>>,
    i: int,
)
    requires
        ledger.wf(),
        ledger.segments.segment(segment_id).lockstep(payloads),
        0 <= i < payloads.len(),
    ensures
        segment_id + i <= u64::MAX,
        ledger.segments.segment(segment_id).stream_result((segment_id + i) as u64) is Ok,
        ledger.segments.segment(segment_id).stream_output(
            (segment_id + i) as u64,
            12 + payloads[i].len() as int,
        ) == crate::encoding::encode_record((segment_id + i) as u64, payloads[i]),
{
    crate::segment::lemma_offset_resolution(ledger.segments.segment(segment_id), payloads, i);
}

} // verus!

verus! {

/// Reopening a ledger: where the segment under the id of entry `k` of
/// `files` held the records of `payloads` in lockstep, and entry `k`, the
/// first with that id, holds the contents of that segment's two files,
/// the ledger opened over `files` has that segment with the same records
/// in lockstep, the same size and the same next offset, and it answers
/// every read of that segment as before.
pub proof fn lemma_reopen_consistent(
    before: Ledger,
    after: Ledger,
    files: Seq<(u64, Vec<u8>, Vec<u8>)>,
    k: int,
    payloads: Seq<Seq<u8>>,
)
    requires
        before.wf(),
        0 <= k < files.len(),
        Ledger::first_entry(files, 0, k),
        Ledger::opened(after, before.id, before.segment_size, files),
        before.segments.segment(files[k].0).is_active(),
        before.segments.segment(files[k].0).lockstep(payloads),
        payloads_fit(payloads),
        files[k].1@ == before.segments.segment(files[k].0).log_bytes(),
        files[k].2@ == before.segments.segment(files[k].0).index_bytes(),
    ensures
        after.segments.ids().contains(files[k].0),
        after.segments.segment(files[k].0).lockstep(payloads),
        after.segments.segment(files[k].0).log_bytes() == before.segments.segment(
            files[k].0,
        ).log_bytes(),
        after.segments.segment(files[k].0).index_bytes() == before.segments.segment(
            files[k].0,
        ).index_bytes(),
        after.segments.segment(files[k].0).next_offset() == before.segments.segment(
            files[k].0,
        ).next_offset(),
        forall|offset: u64| #[trigger]
            after.segments.segment(files[k].0).stream_result(offset) == before.segments.segment(
                files[k].0,
            ).stream_result(offset),
        forall|offset: u64, max_bytes: int| #[trigger]
            after.segments.segment(files[k].0).stream_output(offset, max_bytes)
                == before.segments.segment(files[k].0).stream_output(offset, max_bytes),
{
    let s = files[k].0;
    assert(Ledger::stored(files, 0, s));
    crate::segment::lemma_reopen_consistent(
        before.segments.segment(s),
        after.segments.segment(s),
        payloads,
    );
}

/// Creation after creation: where each of a run of insertions put a
/// ledger under an id that the repository did not hold yet, the
/// repository has one ledger more for each of them and holds every one of
/// their ids; no insertion dropped or replaced a ledger of another.
pub proof fn lemma_fresh_ids_all_held(states: Seq<LedgerRepository>, ids: Seq<Seq<char>>)
    requires
        states.len() == ids.len() + 1,
        forall|i: int|
            0 <= i < ids.len() ==> !(#[trigger] states[i]).holds(ids[i])
                && LedgerRepository::inserted(states[i], states[i + 1], ids[i]),
    ensures
        states.last().count() == states[0].count() + ids.len(),
        forall|i: int| 0 <= i < ids.len() ==> states.last().holds(#[trigger] ids[i]),
        forall|i: int, j: int| 0 <= i < j < ids.len() ==> ids[i] != ids[j],
    decreases ids.len(),
{
    if ids.len() > 0 {
        let n = ids.len() as int;
        let earlier = states.drop_last();
        let before = ids.drop_last();
        assert forall|i: int| 0 <= i < before.len() implies !(#[trigger] earlier[i]).holds(
            before[i],
        ) && LedgerRepository::inserted(earlier[i], earlier[i + 1], before[i]) by {
            assert(earlier[i] == states[i]);
            assert(earlier[i + 1] == states[i + 1]);
        }
        lemma_fresh_ids_all_held(earlier, before);
        assert(earlier.last() == states[n - 1]);
        assert(earlier[0] == states[0]);
        assert(!states[n - 1].holds(ids[n - 1]));
        assert(LedgerRepository::inserted(states[n - 1], states[n], ids[n - 1]));
        assert forall|i: int| 0 <= i < n implies states.last().holds(#[trigger] ids[i]) by {
            if i < n - 1 {
                assert(before[i] == ids[i]);
                assert(states[n - 1].holds(ids[i]));
                assert(ids[i] != ids[n - 1]);
                assert(states[n].holds(ids[i]) == states[n - 1].holds(ids[i]));
            }
        }
        assert forall|i: int, j: int| 0 <= i < j < n implies ids[i] != ids[j] by {
            if j < n - 1 {
                assert(before[i] == ids[i] && before[j] == ids[j]);
            } else {
                assert(before[i] == ids[i]);
                assert(states[n - 1].holds(ids[i]));
            }
        }
    }
}

} // verus!
