//! Big-endian integers and the byte layout of records and index entries.

use byteorder::{BigEndian, ByteOrder};
use vstd::prelude::*;

verus! {

/// Bytes in the header of a record: an 8-byte offset and a 4-byte length.
pub const HEADER_SIZE: usize = 12;

/// Bytes in one index entry.
pub const ENTRY_SIZE: usize = 8;

/// The eight bytes of `v`, most significant first.
pub open spec fn be_bytes_u64(v: u64) -> Seq<u8> {
    seq![
        ((v >> 56) & 0xff) as u8,
        ((v >> 48) & 0xff) as u8,
        ((v >> 40) & 0xff) as u8,
        ((v >> 32) & 0xff) as u8,
        ((v >> 24) & 0xff) as u8,
        ((v >> 16) & 0xff) as u8,
        ((v >> 8) & 0xff) as u8,
        (v & 0xff) as u8,
    ]
}

/// The four bytes of `v`, most significant first.
pub open spec fn be_bytes_u32(v: u32) -> Seq<u8> {
    seq![
        ((v >> 24) & 0xff) as u8,
        ((v >> 16) & 0xff) as u8,
        ((v >> 8) & 0xff) as u8,
        (v & 0xff) as u8,
    ]
}

/// The number whose big-endian encoding is the first eight bytes of `b`.
pub open spec fn be_value_u64(b: Seq<u8>) -> u64 {
    (b[0] as u64) << 56 | (b[1] as u64) << 48 | (b[2] as u64) << 40 | (b[3] as u64) << 32
        | (b[4] as u64) << 24 | (b[5] as u64) << 16 | (b[6] as u64) << 8 | (b[7] as u64)
}

/// The number whose big-endian encoding is the first four bytes of `b`.
pub open spec fn be_value_u32(b: Seq<u8>) -> u32 {
    (b[0] as u32) << 24 | (b[1] as u32) << 16 | (b[2] as u32) << 8 | (b[3] as u32)
}

/// Decoding the big-endian bytes of a 64-bit number gives the number back.
pub proof fn lemma_be_u64_round_trip(v: u64)
    ensures
        be_bytes_u64(v).len() == 8,
        be_value_u64(be_bytes_u64(v)) == v,
{
    assert((((v >> 56) & 0xff) as u8 as u64) << 56 | (((v >> 48) & 0xff) as u8 as u64) << 48 | (((v
        >> 40) & 0xff) as u8 as u64) << 40 | (((v >> 32) & 0xff) as u8 as u64) << 32 | (((v >> 24)
        & 0xff) as u8 as u64) << 24 | (((v >> 16) & 0xff) as u8 as u64) << 16 | (((v >> 8) & 0xff) as u8 as u64)
        << 8 | ((v & 0xff) as u8 as u64) == v) by (bit_vector);
}

/// Decoding the big-endian bytes of a 32-bit number gives the number back.
pub proof fn lemma_be_u32_round_trip(v: u32)
    ensures
        be_bytes_u32(v).len() == 4,
        be_value_u32(be_bytes_u32(v)) == v,
{
    assert((((v >> 24) & 0xff) as u8 as u32) << 24 | (((v >> 16) & 0xff) as u8 as u32) << 16 | (((v
        >> 8) & 0xff) as u8 as u32) << 8 | ((v & 0xff) as u8 as u32) == v) by (bit_vector);
}

/// `byteorder::BigEndian::write_u64` on a zeroed buffer of eight bytes: the
/// buffer then holds the big-endian bytes of `value`.
#[verifier::external_body]
pub(crate) fn write_u64_be(value: u64) -> (out: Vec<u8>)
    ensures
        out@ == be_bytes_u64(value),
{
    let mut buf: [u8; 8] = [0; 8];
    BigEndian::write_u64(&mut buf, value);
    buf.to_vec()
}

/// `byteorder::BigEndian::read_u64`: the number that the first eight bytes
/// of `buf` encode, most significant byte first. It panics on a shorter
/// buffer, which the precondition leaves out.
#[verifier::external_body]
pub(crate) fn read_u64_be(buf: &[u8]) -> (value: u64)
    requires
        buf@.len() >= 8,
    ensures
        value == be_value_u64(buf@),
{
    BigEndian::read_u64(buf)
}

/// `u64::to_be_bytes`: the memory representation of `value` in big-endian
/// byte order, as a vector of eight bytes.
#[verifier::external_body]
pub(crate) fn u64_to_be_bytes(value: u64) -> (out: Vec<u8>)
    ensures
        out@ == be_bytes_u64(value),
{
    value.to_be_bytes().to_vec()
}

/// `u32::to_be_bytes`: the memory representation of `value` in big-endian
/// byte order, as a vector of four bytes.
#[verifier::external_body]
pub(crate) fn u32_to_be_bytes(value: u32) -> (out: Vec<u8>)
    ensures
        out@ == be_bytes_u32(value),
{
    value.to_be_bytes().to_vec()
}

/// The encoding of one record: its logical offset, the length of its
/// payload, then the payload itself.
pub open spec fn encode_record(offset: u64, payload: Seq<u8>) -> Seq<u8> {
    be_bytes_u64(offset) + be_bytes_u32(payload.len() as u32) + payload
}

/// The encoding of `payloads` as consecutive records, the first of them at
/// logical offset `first`.
pub open spec fn encode_batch(first: int, payloads: Seq<Seq<u8>>) -> Seq<u8>
    decreases payloads.len(),
{
    if payloads.len() == 0 {
        Seq::empty()
    } else {
        encode_batch(first, payloads.drop_last()) + encode_record(
            (first + payloads.len() - 1) as u64,
            payloads.last(),
        )
    }
}

/// The index entries for `payloads` appended to a log that held `start`
/// bytes: entry `i` is the byte position where record `i` begins.
pub open spec fn encode_positions(start: int, payloads: Seq<Seq<u8>>) -> Seq<u8>
    decreases payloads.len(),
{
    if payloads.len() == 0 {
        Seq::empty()
    } else {
        encode_positions(start, payloads.drop_last()) + be_bytes_u64(
            (start + batch_len(payloads.drop_last())) as u64,
        )
    }
}

} // verus!

verus! {

/// The payloads held by a batch of entries.
pub open spec fn payloads_of(entries: Seq<Vec<u8>>) -> Seq<Seq<u8>> {
    Seq::new(entries.len(), |i: int| entries[i]@)
}

/// Every payload is short enough for its length to fit the 32-bit field
/// of the record header.
pub open spec fn payloads_fit(payloads: Seq<Seq<u8>>) -> bool {
    forall|i: int| 0 <= i < payloads.len() ==> (#[trigger] payloads[i]).len() <= u32::MAX
}

/// The number of bytes that the records of `payloads` take.
pub open spec fn batch_len(payloads: Seq<Seq<u8>>) -> nat
    decreases payloads.len(),
{
    if payloads.len() == 0 {
        0
    } else {
        batch_len(payloads.drop_last()) + 12 + payloads.last().len()
    }
}

/// The records encoded in `bytes`, read front to back by their headers.
/// Reading stops where the bytes left hold no whole record.
pub open spec fn decode_records(bytes: Seq<u8>) -> Seq<Seq<u8>>
    decreases bytes.len(),
{
    if bytes.len() < 12 {
        Seq::empty()
    } else {
        let n = be_value_u32(bytes.subrange(8, 12)) as int;
        if bytes.len() < 12 + n {
            Seq::empty()
        } else {
            seq![bytes.subrange(12, 12 + n)] + decode_records(
                bytes.subrange(12 + n, bytes.len() as int),
            )
        }
    }
}

/// An encoded batch is as long as `batch_len` says, whatever the offset
/// of its first record.
pub proof fn lemma_encode_batch_len(first: int, payloads: Seq<Seq<u8>>)
    ensures
        encode_batch(first, payloads).len() == batch_len(payloads),
    decreases payloads.len(),
{
    if payloads.len() > 0 {
        lemma_encode_batch_len(first, payloads.drop_last());
    }
}

/// The records of a batch grow with the batch.
pub proof fn lemma_batch_len_concat(a: Seq<Seq<u8>>, b: Seq<Seq<u8>>)
    ensures
        batch_len(a + b) == batch_len(a) + batch_len(b),
    decreases b.len(),
{
    if b.len() == 0 {
        assert(a + b =~= a);
    } else {
        assert((a + b).drop_last() =~= a + b.drop_last());
        assert((a + b).last() == b.last());
        lemma_batch_len_concat(a, b.drop_last());
    }
}

/// Encoding two batches one after the other is encoding them as one: the
/// second batch starts at the offset that follows the first.
pub proof fn lemma_encode_batch_concat(first: int, a: Seq<Seq<u8>>, b: Seq<Seq<u8>>)
    ensures
        encode_batch(first, a + b) == encode_batch(first, a) + encode_batch(first + a.len(), b),
    decreases b.len(),
{
    if b.len() == 0 {
        assert(a + b =~= a);
        assert(encode_batch(first, a) + Seq::<u8>::empty() =~= encode_batch(first, a));
    } else {
        assert((a + b).drop_last() =~= a + b.drop_last());
        assert((a + b).last() == b.last());
        lemma_encode_batch_concat(first, a, b.drop_last());
        let last = encode_record((first + a.len() + b.len() - 1) as u64, b.last());
        assert((encode_batch(first, a) + encode_batch(first + a.len(), b.drop_last())) + last
            =~= encode_batch(first, a) + (encode_batch(first + a.len(), b.drop_last()) + last));
    }
}

/// The index entries of two batches appended one after the other are those
/// of the two as one batch: the second starts where the first ended.
pub proof fn lemma_encode_positions_concat(start: int, a: Seq<Seq<u8>>, b: Seq<Seq<u8>>)
    ensures
        encode_positions(start, a + b) == encode_positions(start, a) + encode_positions(
            start + batch_len(a),
            b,
        ),
    decreases b.len(),
{
    if b.len() == 0 {
        assert(a + b =~= a);
        assert(encode_positions(start, a) + Seq::<u8>::empty() =~= encode_positions(start, a));
    } else {
        assert((a + b).drop_last() =~= a + b.drop_last());
        lemma_encode_positions_concat(start, a, b.drop_last());
        lemma_batch_len_concat(a, b.drop_last());
        let last = be_bytes_u64((start + batch_len(a) + batch_len(b.drop_last())) as u64);
        assert((encode_positions(start, a) + encode_positions(
            start + batch_len(a),
            b.drop_last(),
        )) + last =~= encode_positions(start, a) + (encode_positions(
            start + batch_len(a),
            b.drop_last(),
        ) + last));
    }
}

/// The index entries of a batch take eight bytes for each record.
pub proof fn lemma_encode_positions_len(start: int, payloads: Seq<Seq<u8>>)
    ensures
        encode_positions(start, payloads).len() == 8 * payloads.len(),
    decreases payloads.len(),
{
    if payloads.len() > 0 {
        lemma_encode_positions_len(start, payloads.drop_last());
    }
}

} // verus!

verus! {

/// In the index entries of a batch, the entry at array position `i` holds
/// the byte position where record `i` begins: the start plus the length
/// of the records before it.
pub proof fn lemma_encode_positions_entry(start: int, payloads: Seq<Seq<u8>>, i: int)
    requires
        0 <= i < payloads.len(),
    ensures
        8 * i + 8 <= encode_positions(start, payloads).len(),
        encode_positions(start, payloads).subrange(8 * i, 8 * i + 8) == be_bytes_u64(
            (start + batch_len(payloads.take(i))) as u64,
        ),
    decreases payloads.len(),
{
    let rest = payloads.drop_last();
    lemma_encode_positions_len(start, payloads);
    lemma_encode_positions_len(start, rest);
    let last = be_bytes_u64((start + batch_len(rest)) as u64);
    if i == payloads.len() - 1 {
        assert(payloads.take(i) =~= rest);
        assert((encode_positions(start, rest) + last).subrange(8 * i, 8 * i + 8) =~= last);
    } else {
        lemma_encode_positions_entry(start, rest, i);
        assert(payloads.take(i) =~= rest.take(i));
        assert((encode_positions(start, rest) + last).subrange(8 * i, 8 * i + 8)
            =~= encode_positions(start, rest).subrange(8 * i, 8 * i + 8));
    }
}

/// In an encoded batch, the encoding of record `i` stands behind the
/// records before it, under the logical offset `first + i`.
pub proof fn lemma_encode_batch_record(first: int, payloads: Seq<Seq<u8>>, i: int)
    requires
        0 <= i < payloads.len(),
    ensures
        batch_len(payloads.take(i)) + 12 + payloads[i].len() <= encode_batch(first, payloads).len(),
        encode_batch(first, payloads).subrange(
            batch_len(payloads.take(i)) as int,
            batch_len(payloads.take(i)) as int + 12 + payloads[i].len(),
        ) == encode_record((first + i) as u64, payloads[i]),
    decreases payloads.len(),
{
    let rest = payloads.drop_last();
    lemma_encode_batch_len(first, payloads);
    lemma_encode_batch_len(first, rest);
    let last = encode_record((first + payloads.len() - 1) as u64, payloads.last());
    let at = batch_len(payloads.take(i)) as int;
    if i == payloads.len() - 1 {
        assert(payloads.take(i) =~= rest);
        assert((encode_batch(first, rest) + last).subrange(at, at + 12 + payloads[i].len())
            =~= last);
    } else {
        lemma_encode_batch_record(first, rest, i);
        assert(payloads.take(i) =~= rest.take(i));
        assert((encode_batch(first, rest) + last).subrange(at, at + 12 + payloads[i].len())
            =~= encode_batch(first, rest).subrange(at, at + 12 + payloads[i].len()));
    }
}

/// Decoding an encoded batch by its record headers gives the payloads
/// back, in order.
pub proof fn lemma_decode_encode(first: int, payloads: Seq<Seq<u8>>)
    requires
        payloads_fit(payloads),
    ensures
        decode_records(encode_batch(first, payloads)) == payloads,
    decreases payloads.len(),
{
    if payloads.len() == 0 {
        assert(decode_records(encode_batch(first, payloads)) =~= payloads);
    } else {
        let head = payloads[0];
        let tail = payloads.drop_first();
        assert(payloads =~= seq![head] + tail);
        lemma_encode_batch_concat(first, seq![head], tail);
        assert(seq![head].drop_last() =~= Seq::<Seq<u8>>::empty());
        let record = encode_record(first as u64, head);
        assert(encode_batch(first, Seq::<Seq<u8>>::empty()) =~= Seq::<u8>::empty());
        assert(seq![head].last() == head);
        assert(encode_batch(first, seq![head]) =~= record);
        let rest = encode_batch(first + 1, tail);
        let bytes = encode_batch(first, payloads);
        assert(bytes == record + rest);
        let n = head.len() as int;
        lemma_be_u32_round_trip(n as u32);
        assert(bytes.subrange(8, 12) =~= be_bytes_u32(n as u32));
        assert(bytes.subrange(12, 12 + n) =~= head);
        assert(bytes.subrange(12 + n, bytes.len() as int) =~= rest);
        assert forall|i: int| 0 <= i < tail.len() implies (#[trigger] tail[i]).len()
            <= u32::MAX by {
            assert(tail[i] == payloads[i + 1]);
        }
        lemma_decode_encode(first + 1, tail);
    }
}

} // verus!

verus! {

/// `byteorder::BigEndian::read_u32`: the number that the first four bytes
/// of `buf` encode, most significant byte first. It panics on a shorter
/// buffer, which the precondition leaves out.
#[verifier::external_body]
pub(crate) fn read_u32_be(buf: &[u8]) -> (value: u32)
    requires
        buf@.len() >= 4,
    ensures
        value == be_value_u32(buf@),
{
    BigEndian::read_u32(buf)
}

/// The byte position behind the record that begins at `at`, where the
/// bytes from `at` on hold a whole record.
pub open spec fn record_end(log: Seq<u8>, at: int) -> Option<int> {
    if 0 <= at && at + 12 <= log.len() {
        let n = be_value_u32(log.subrange(at + 8, at + 12)) as int;
        if at + 12 + n <= log.len() {
            Some(at + 12 + n)
        } else {
            None
        }
    } else {
        None
    }
}

/// The index entries of the whole records that `log` holds from the byte
/// position `at` on, found by reading record header after record header.
pub open spec fn scan_positions(log: Seq<u8>, at: int) -> Seq<u8>
    decreases log.len() - at,
{
    match record_end(log, at) {
        Some(end) => be_bytes_u64(at as u64) + scan_positions(log, end),
        None => Seq::empty(),
    }
}

/// The index entries of a batch begin with the start position; the rest
/// are those of the other records, which start behind the first.
pub proof fn lemma_encode_positions_front(start: int, payloads: Seq<Seq<u8>>)
    requires
        payloads.len() > 0,
    ensures
        encode_positions(start, payloads) == be_bytes_u64(start as u64) + encode_positions(
            start + 12 + payloads[0].len(),
            payloads.drop_first(),
        ),
{
    let head = seq![payloads[0]];
    assert(payloads =~= head + payloads.drop_first());
    lemma_encode_positions_concat(start, head, payloads.drop_first());
    assert(head.drop_last() =~= Seq::<Seq<u8>>::empty());
    assert(encode_positions(start, Seq::<Seq<u8>>::empty()) =~= Seq::<u8>::empty());
    assert(batch_len(head.drop_last()) == 0);
    assert(encode_positions(start, head) =~= be_bytes_u64(start as u64));
    assert(head.last() == payloads[0]);
    assert(batch_len(head) == 12 + payloads[0].len());
}

/// In an encoded batch, a whole record begins behind the records before
/// record `j`, and it ends where record `j + 1` begins.
pub proof fn lemma_record_end(first: int, payloads: Seq<Seq<u8>>, j: int)
    requires
        payloads_fit(payloads),
        0 <= j < payloads.len(),
    ensures
        record_end(encode_batch(first, payloads), batch_len(payloads.take(j)) as int) == Some(
            batch_len(payloads.take(j + 1)) as int,
        ),
{
    let log = encode_batch(first, payloads);
    let at = batch_len(payloads.take(j)) as int;
    let n = payloads[j].len() as int;
    lemma_encode_batch_record(first, payloads, j);
    let record = encode_record((first + j) as u64, payloads[j]);
    assert(log.subrange(at + 8, at + 12) =~= log.subrange(at, at + 12 + n).subrange(8, 12));
    assert(record.subrange(8, 12) =~= be_bytes_u32(n as u32));
    lemma_be_u32_round_trip(n as u32);
    assert(payloads.take(j + 1).drop_last() =~= payloads.take(j));
    assert(payloads.take(j + 1).last() == payloads[j]);
}

/// Reading an encoded batch header by header from the place where record
/// `j` begins finds the index entries of the records from `j` on.
pub proof fn lemma_scan_positions(first: int, payloads: Seq<Seq<u8>>, j: int)
    requires
        payloads_fit(payloads),
        0 <= j <= payloads.len(),
    ensures
        scan_positions(encode_batch(first, payloads), batch_len(payloads.take(j)) as int)
            == encode_positions(batch_len(payloads.take(j)) as int, payloads.skip(j)),
    decreases payloads.len() - j,
{
    let log = encode_batch(first, payloads);
    let at = batch_len(payloads.take(j)) as int;
    lemma_encode_batch_len(first, payloads);
    if j == payloads.len() {
        assert(payloads.take(j) =~= payloads);
        assert(payloads.skip(j) =~= Seq::<Seq<u8>>::empty());
        assert(record_end(log, at) is None);
    } else {
        lemma_record_end(first, payloads, j);
        lemma_scan_positions(first, payloads, j + 1);
        lemma_encode_positions_front(at, payloads.skip(j));
        assert(payloads.skip(j).drop_first() =~= payloads.skip(j + 1));
        assert(payloads.skip(j)[0] == payloads[j]);
        assert(payloads.take(j + 1).drop_last() =~= payloads.take(j));
        assert(payloads.take(j + 1).last() == payloads[j]);
    }
}

} // verus!

verus! {

/// The byte position stored in the entry at array position `slot` of an
/// index.
pub open spec fn index_entry(index: Seq<u8>, slot: int) -> u64 {
    be_value_u64(index.subrange(8 * slot, 8 * slot + 8))
}

/// The byte position from which the index has no entries for the records
/// of the log: the start of the log for an index without entries, else
/// the end of the record that the last whole entry points to. `None`
/// where that entry points to no whole record.
pub open spec fn resume_point(log: Seq<u8>, index: Seq<u8>) -> Option<int> {
    let count = index.len() as int / 8;
    if count == 0 {
        Some(0)
    } else {
        record_end(log, index_entry(index, count - 1) as int)
    }
}

/// The index after a recovery: its whole entries, and behind them one
/// entry for each whole record that the log holds from the resume point
/// on.
pub open spec fn recovered_index(log: Seq<u8>, index: Seq<u8>) -> Seq<u8> {
    index.take(8 * (index.len() as int / 8)) + match resume_point(log, index) {
        Some(at) => scan_positions(log, at),
        None => Seq::empty(),
    }
}

/// Where the index holds the entries of the first `k` records of an
/// encoded batch, the resume point is the place where record `k` begins.
pub proof fn lemma_resume_point(first: int, payloads: Seq<Seq<u8>>, k: int)
    requires
        payloads_fit(payloads),
        0 <= k <= payloads.len(),
        batch_len(payloads) <= u64::MAX,
    ensures
        encode_positions(0, payloads.take(k)).len() == 8 * k,
        resume_point(encode_batch(first, payloads), encode_positions(0, payloads.take(k)))
            == Some(batch_len(payloads.take(k)) as int),
{
    let log = encode_batch(first, payloads);
    let indexed = payloads.take(k);
    let index = encode_positions(0, indexed);
    lemma_encode_positions_len(0, indexed);
    if k == 0 {
        assert(indexed =~= Seq::<Seq<u8>>::empty());
    } else {
        let last = batch_len(payloads.take(k - 1));
        assert(index.subrange(8 * (k - 1), 8 * (k - 1) + 8) == be_bytes_u64(last as u64)) by {
            lemma_encode_positions_entry(0, indexed, k - 1);
            assert(indexed.take(k - 1) =~= payloads.take(k - 1));
        }
        assert(last <= u64::MAX) by {
            lemma_encode_batch_record(first, payloads, k - 1);
            lemma_encode_batch_len(first, payloads);
        }
        assert(index_entry(index, k - 1) == last) by {
            lemma_be_u64_round_trip(last as u64);
        }
        lemma_record_end(first, payloads, k - 1);
    }
}

/// Recovering the index of an encoded batch from the entries of its first
/// `k` records gives the entries of all its records.
pub proof fn lemma_recovered_index(first: int, payloads: Seq<Seq<u8>>, k: int)
    requires
        payloads_fit(payloads),
        0 <= k <= payloads.len(),
        batch_len(payloads) <= u64::MAX,
    ensures
        recovered_index(encode_batch(first, payloads), encode_positions(0, payloads.take(k)))
            == encode_positions(0, payloads),
{
    let indexed = payloads.take(k);
    let index = encode_positions(0, indexed);
    lemma_resume_point(first, payloads, k);
    assert(index.take(8 * k) =~= index);
    lemma_scan_positions(first, payloads, k);
    lemma_encode_positions_concat(0, indexed, payloads.skip(k));
    assert(indexed + payloads.skip(k) =~= payloads);
}

} // verus!

verus! {

/// The payloads of the records encoded in `bytes`, read front to back by
/// their headers. Reading stops where the bytes left hold no whole record.
pub fn decode(bytes: &[u8]) -> (payloads: Vec<Vec<u8>>)
    ensures
        payloads_of(payloads@) == decode_records(bytes@),
{
    let len = bytes.len();
    let mut payloads: Vec<Vec<u8>> = Vec::new();
    let mut at: usize = 0;
    proof {
        assert(bytes@.subrange(0, len as int) =~= bytes@);
        assert(payloads_of(payloads@) + decode_records(bytes@) =~= decode_records(bytes@));
    }
    loop
        invariant
            at <= len,
            len == bytes@.len(),
            payloads_of(payloads@) + decode_records(bytes@.subrange(at as int, len as int))
                == decode_records(bytes@),
        ensures
            payloads_of(payloads@) == decode_records(bytes@),
        decreases len - at,
    {
        let ghost rest = bytes@.subrange(at as int, len as int);
        if len - at < HEADER_SIZE {
            proof {
                assert(payloads_of(payloads@) + Seq::<Seq<u8>>::empty() =~= payloads_of(payloads@));
            }
            break ;
        }
        let field = vstd::slice::slice_subrange(bytes, at + 8, at + HEADER_SIZE);
        let n = read_u32_be(field) as usize;
        proof {
            assert(field@ =~= rest.subrange(8, 12));
        }
        if len - at - HEADER_SIZE < n {
            proof {
                assert(payloads_of(payloads@) + Seq::<Seq<u8>>::empty() =~= payloads_of(payloads@));
            }
            break ;
        }
        let from = at + HEADER_SIZE;
        let ghost before = payloads_of(payloads@);
        let mut payload: Vec<u8> = Vec::new();
        let mut i: usize = 0;
        while i < n
            invariant
                i <= n,
                from + n <= len,
                len == bytes@.len(),
                payload@ == bytes@.subrange(from as int, from + i),
            decreases n - i,
        {
            payload.push(bytes[from + i]);
            i += 1;
            proof {
                assert(bytes@.subrange(from as int, from + i) =~= bytes@.subrange(
                    from as int,
                    from + i - 1,
                ).push(bytes@[from + i - 1]));
            }
        }
        payloads.push(payload);
        proof {
            assert(payload@ =~= rest.subrange(12, 12 + n));
            assert(bytes@.subrange(from + n, len as int) =~= rest.subrange(
                12 + n,
                rest.len() as int,
            ));
            assert(payloads_of(payloads@) =~= before.push(payload@));
            assert(before.push(payload@) + decode_records(bytes@.subrange(from + n, len as int))
                =~= before + decode_records(rest));
        }
        at = from + n;
    }
    payloads
}

} // verus!

verus! {

/// Each record begins behind the one before it: the byte positions of
/// the records of a batch ascend, by at least the length of a header.
pub proof fn lemma_batch_len_increases(payloads: Seq<Seq<u8>>, i: int, j: int)
    requires
        0 <= i < j <= payloads.len(),
    ensures
        batch_len(payloads.take(i)) + 12 <= batch_len(payloads.take(j)),
    decreases j - i,
{
    assert(payloads.take(j).drop_last() =~= payloads.take(j - 1));
    if i < j - 1 {
        lemma_batch_len_increases(payloads, i, j - 1);
    }
}

} // verus!
