//! Keys of the placement directory, which records the node that serves
//! each segment of a ledger.
//!
//! The addresses of the serving nodes stand under `/ledgers/nodes/`. The
//! node that owns a segment stands under
//! `/ledgers/<ledger id>/partitions/<partition>/segments/<segment id>`,
//! with both numbers in decimal digits.

use crate::files::{decimal_digits, render_u64};
use vstd::prelude::*;

verus! {

/// What the directory store answers in place of a value.
#[derive(Debug, Clone, Copy, PartialEq, Eq, Structural)]
pub enum StoreError {
    IOError,
    NotFound,
    Conflict,
    Unavailable,
}

/// The bytes of `/ledgers/`.
pub open spec fn ledgers_prefix() -> Seq<u8> {
    seq![47u8, 108u8, 101u8, 100u8, 103u8, 101u8, 114u8, 115u8, 47u8]
}

/// The bytes of `nodes/`.
pub open spec fn nodes_part() -> Seq<u8> {
    seq![110u8, 111u8, 100u8, 101u8, 115u8, 47u8]
}

/// The bytes of `/partitions/`.
pub open spec fn partitions_part() -> Seq<u8> {
    seq![47u8, 112u8, 97u8, 114u8, 116u8, 105u8, 116u8, 105u8, 111u8, 110u8, 115u8, 47u8]
}

/// The bytes of `/segments/`.
pub open spec fn segments_part() -> Seq<u8> {
    seq![47u8, 115u8, 101u8, 103u8, 109u8, 101u8, 110u8, 116u8, 115u8, 47u8]
}

/// The key under which the owner of a segment stands.
pub open spec fn segment_key_bytes(ledger_id: Seq<u8>, partition: u64, segment_id: u64) -> Seq<u8> {
    ledgers_prefix() + ledger_id + partitions_part() + decimal_digits(partition as nat)
        + segments_part() + decimal_digits(segment_id as nat)
}

/// Puts the bytes of `more` behind those of `target`.
fn extend(target: &mut Vec<u8>, more: &[u8])
    ensures
        final(target)@ == old(target)@ + more@,
{
    let mut i: usize = 0;
    proof {
        assert(target@ =~= old(target)@ + more@.take(0));
    }
    while i < more.len()
        invariant
            i <= more@.len(),
            target@ == old(target)@ + more@.take(i as int),
        decreases more@.len() - i,
    {
        target.push(more[i]);
        proof {
            assert(more@.take(i + 1) =~= more@.take(i as int).push(more@[i as int]));
            assert(target@ =~= old(target)@ + more@.take(i + 1));
        }
        i += 1;
    }
    proof {
        assert(more@.take(more@.len() as int) =~= more@);
    }
}

/// The prefix under which the addresses of the serving nodes stand:
/// `/ledgers/nodes/`.
pub fn nodes_prefix() -> (key: Vec<u8>)
    ensures
        key@ == ledgers_prefix() + nodes_part(),
{
    let key = vec![
        47u8, 108u8, 101u8, 100u8, 103u8, 101u8, 114u8, 115u8, 47u8, 110u8, 111u8, 100u8, 101u8,
        115u8, 47u8,
    ];
    assert(key@ =~= ledgers_prefix() + nodes_part());
    key
}

/// The key under which the owner of the segment `segment_id` in the
/// partition `partition` of the ledger `ledger_id` stands.
pub fn segment_key(ledger_id: &[u8], partition: u64, segment_id: u64) -> (key: Vec<u8>)
    ensures
        key@ == segment_key_bytes(ledger_id@, partition, segment_id),
{
    let mut key = vec![47u8, 108u8, 101u8, 100u8, 103u8, 101u8, 114u8, 115u8, 47u8];
    assert(key@ =~= ledgers_prefix());
    extend(&mut key, ledger_id);
    let part = vec![
        47u8, 112u8, 97u8, 114u8, 116u8, 105u8, 116u8, 105u8, 111u8, 110u8, 115u8, 47u8,
    ];
    assert(part@ =~= partitions_part());
    extend(&mut key, part.as_slice());
    let digits = render_u64(partition);
    extend(&mut key, digits.as_slice());
    let part = vec![47u8, 115u8, 101u8, 103u8, 109u8, 101u8, 110u8, 116u8, 115u8, 47u8];
    assert(part@ =~= segments_part());
    extend(&mut key, part.as_slice());
    let digits = render_u64(segment_id);
    extend(&mut key, digits.as_slice());
    key
}

/// Whether the owner of a segment may be written: an entry is written
/// once, so a key that has a value already is a conflict.
pub fn check_unplaced(existing: Option<&Vec<u8>>) -> (res: Result<(), StoreError>)
    ensures
        existing is None ==> res == Ok::<(), StoreError>(()),
        existing is Some ==> res == Err::<(), StoreError>(StoreError::Conflict),
{
    match existing {
        None => Ok(()),
        Some(_) => Err(StoreError::Conflict),
    }
}

} // verus!
