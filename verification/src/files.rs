//! Names of segment files: `<segment id>.log` and `<segment id>.index`.
//!
//! A file name is a sequence of bytes. Its extension is what follows its
//! last dot, its stem what precedes it; a name without a dot has no
//! extension and is its own stem. A stem names a segment where it is a
//! run of decimal digits whose value fits 64 bits.

use vstd::prelude::*;

verus! {

/// The byte of the dot that parts stem and extension.
pub const DOT: u8 = 46;

/// The place of the last dot in `name`, if it has one.
pub open spec fn last_dot(name: Seq<u8>) -> Option<int>
    decreases name.len(),
{
    if name.len() == 0 {
        None
    } else if name.last() == DOT {
        Some(name.len() - 1)
    } else {
        last_dot(name.drop_last())
    }
}

/// What precedes the last dot of `name`; all of a name without a dot.
pub open spec fn stem(name: Seq<u8>) -> Seq<u8> {
    match last_dot(name) {
        Some(dot) => name.subrange(0, dot),
        None => name,
    }
}

/// What follows the last dot of `name`, if it has one.
pub open spec fn extension(name: Seq<u8>) -> Option<Seq<u8>> {
    match last_dot(name) {
        Some(dot) => Some(name.subrange(dot + 1, name.len() as int)),
        None => None,
    }
}

/// Whether `b` is a decimal digit.
pub open spec fn is_digit(b: u8) -> bool {
    48 <= b <= 57
}

/// Whether `text` holds decimal digits only.
pub open spec fn all_digits(text: Seq<u8>) -> bool {
    forall|i: int| 0 <= i < text.len() ==> is_digit(#[trigger] text[i])
}

/// The number that the decimal digits of `digits` write.
pub open spec fn decimal_value(digits: Seq<u8>) -> nat
    decreases digits.len(),
{
    if digits.len() == 0 {
        0
    } else {
        decimal_value(digits.drop_last()) * 10 + (digits.last() - 48) as nat
    }
}

/// The number that `text` writes, where it is a run of one or more
/// decimal digits with a value of at most `u64::MAX`.
pub open spec fn number(text: Seq<u8>) -> Option<u64> {
    if text.len() > 0 && all_digits(text) && decimal_value(text) <= u64::MAX {
        Some(decimal_value(text) as u64)
    } else {
        None
    }
}

/// The segment id that the stem of `name` writes, if it writes one.
pub open spec fn stem_number(name: Seq<u8>) -> Option<u64> {
    number(stem(name))
}

/// The segment id of the file `name`, where the file has the extension
/// `wanted` and its stem writes an id.
pub open spec fn listed(name: Seq<u8>, wanted: Seq<u8>) -> Option<u64> {
    if extension(name) == Some(wanted) {
        stem_number(name)
    } else {
        None
    }
}

/// The names held by a listing.
pub open spec fn names_of(names: Seq<Vec<u8>>) -> Seq<Seq<u8>> {
    Seq::new(names.len(), |i: int| names[i]@)
}

/// The segment ids of the files in `names` with the extension `wanted`,
/// in the order of the listing.
pub open spec fn numbers_in(names: Seq<Seq<u8>>, wanted: Seq<u8>) -> Seq<u64>
    decreases names.len(),
{
    if names.len() == 0 {
        Seq::empty()
    } else {
        let before = numbers_in(names.drop_last(), wanted);
        match listed(names.last(), wanted) {
            Some(id) => before.push(id),
            None => before,
        }
    }
}

/// The extension of index files: the bytes of `index`.
pub open spec fn index_extension() -> Seq<u8> {
    seq![105u8, 110u8, 100u8, 101u8, 120u8]
}

/// The extension of index files.
pub fn index_extension_bytes() -> (res: Vec<u8>)
    ensures
        res@ == index_extension(),
{
    let res = vec![105u8, 110u8, 100u8, 101u8, 120u8];
    assert(res@ =~= index_extension());
    res
}

/// Whether `values` ascends.
pub open spec fn ascending(values: Seq<u64>) -> bool {
    forall|i: int, j: int| 0 <= i < j < values.len() ==> values[i] <= values[j]
}

/// A run of digits writes at least what any of its prefixes writes.
proof fn lemma_decimal_value_grows(digits: Seq<u8>, k: int)
    requires
        all_digits(digits),
        0 <= k <= digits.len(),
    ensures
        decimal_value(digits.take(k)) <= decimal_value(digits),
    decreases digits.len() - k,
{
    if k == digits.len() {
        assert(digits.take(k) =~= digits);
    } else {
        lemma_decimal_value_grows(digits, k + 1);
        assert(digits.take(k + 1).drop_last() =~= digits.take(k));
        assert(is_digit(digits[k]));
        assert(digits.take(k + 1).last() == digits[k]);
    }
}

/// The place of the last dot in `name`, found from its end.
fn find_last_dot(name: &[u8]) -> (res: Option<usize>)
    ensures
        match res {
            Some(dot) => last_dot(name@) == Some(dot as int) && dot < name@.len(),
            None => last_dot(name@) is None,
        },
{
    let mut end: usize = name.len();
    proof {
        assert(name@.take(end as int) =~= name@);
    }
    while end > 0
        invariant
            end <= name@.len(),
            last_dot(name@) == last_dot(name@.take(end as int)),
        decreases end,
    {
        if name[end - 1] == DOT {
            assert(name@.take(end as int).last() == name@[end - 1]);
            return Some(end - 1);
        }
        proof {
            assert(name@.take(end as int).drop_last() =~= name@.take(end - 1));
        }
        end -= 1;
    }
    proof {
        assert(name@.take(0).len() == 0);
    }
    None
}

/// The number that the bytes of `text` from `from` up to `to` write.
fn parse_number(text: &[u8], from: usize, to: usize) -> (res: Option<u64>)
    requires
        from <= to <= text@.len(),
    ensures
        res == number(text@.subrange(from as int, to as int)),
{
    let ghost digits = text@.subrange(from as int, to as int);
    if from == to {
        return None;
    }
    let mut value: u64 = 0;
    let mut i: usize = from;
    while i < to
        invariant
            from <= i <= to <= text@.len(),
            digits == text@.subrange(from as int, to as int),
            all_digits(digits.take(i - from)),
            value == decimal_value(digits.take(i - from)),
        decreases to - i,
    {
        let b = text[i];
        assert(digits[i - from] == b);
        if b < 48 || b > 57 {
            assert(!all_digits(digits));
            return None;
        }
        let d = (b - 48) as u64;
        proof {
            assert(digits.take(i - from + 1).drop_last() =~= digits.take(i - from));
            assert(digits.take(i - from + 1).last() == b);
            assert forall|k: int| 0 <= k < i - from + 1 implies is_digit(
                #[trigger] digits.take(i - from + 1)[k],
            ) by {
                if k < i - from {
                    assert(digits.take(i - from)[k] == digits.take(i - from + 1)[k]);
                }
            }
        }
        if value > (u64::MAX - d) / 10 {
            proof {
                assert(decimal_value(digits.take(i - from + 1)) > u64::MAX);
                if all_digits(digits) {
                    lemma_decimal_value_grows(digits, i - from + 1);
                }
            }
            return None;
        }
        value = value * 10 + d;
        i += 1;
    }
    proof {
        assert(digits.take(to - from) =~= digits);
    }
    Some(value)
}

/// The segment id that the stem of the file name `name` writes; `None`
/// where the stem is no run of decimal digits or its value does not fit.
pub fn stem_as_u64(name: &[u8]) -> (res: Option<u64>)
    ensures
        res == stem_number(name@),
{
    match find_last_dot(name) {
        Some(dot) => parse_number(name, 0, dot),
        None => {
            assert(name@.subrange(0, name@.len() as int) =~= name@);
            parse_number(name, 0, name.len())
        },
    }
}

/// Whether the file name `name` has the extension `wanted`.
pub fn has_extension(name: &[u8], wanted: &[u8]) -> (res: bool)
    ensures
        res == (extension(name@) == Some(wanted@)),
{
    match find_last_dot(name) {
        None => false,
        Some(dot) => {
            let n = name.len();
            let start = dot + 1;
            let ghost found = name@.subrange(start as int, name@.len() as int);
            if n - start != wanted.len() {
                assert(found.len() != wanted@.len());
                return false;
            }
            let mut i: usize = 0;
            while i < wanted.len()
                invariant
                    i <= wanted@.len(),
                    start + wanted@.len() == name@.len(),
                    n == name@.len(),
                    found == name@.subrange(start as int, name@.len() as int),
                    extension(name@) == Some(found),
                    forall|k: int| 0 <= k < i ==> found[k] == wanted@[k],
                decreases wanted@.len() - i,
            {
                if name[start + i] != wanted[i] {
                    assert(found[i as int] != wanted@[i as int]);
                    return false;
                }
                i += 1;
            }
            assert(found =~= wanted@);
            true
        },
    }
}

/// Two sequences that hold the same values equally often hold the same
/// set of values.
pub proof fn lemma_same_values(a: Seq<u64>, b: Seq<u64>)
    requires
        a.to_multiset() == b.to_multiset(),
    ensures
        a.to_set() == b.to_set(),
{
    a.to_multiset_ensures();
    b.to_multiset_ensures();
    assert forall|x: u64| a.to_set().contains(x) == b.to_set().contains(x) by {
        assert(a.contains(x) <==> a.to_multiset().count(x) > 0);
        assert(b.contains(x) <==> b.to_multiset().count(x) > 0);
    }
    assert(a.to_set() =~= b.to_set());
}

/// `<[u64]>::sort` of the standard library: it puts the values into
/// ascending order and neither adds nor drops one.
#[verifier::external_body]
pub(crate) fn sort_values(values: &mut Vec<u64>)
    ensures
        ascending(final(values)@),
        final(values)@.to_multiset() == old(values)@.to_multiset(),
{
    values.sort();
}

/// The segment ids of the files in `names` that have the extension
/// `wanted`, in ascending order. A file whose stem writes no id is passed
/// over.
pub fn list_files_as_u64(names: &Vec<Vec<u8>>, wanted: &[u8]) -> (res: Vec<u64>)
    ensures
        ascending(res@),
        res@.to_multiset() == numbers_in(names_of(names@), wanted@).to_multiset(),
{
    let ghost all = names_of(names@);
    let mut entries: Vec<u64> = Vec::new();
    let mut i: usize = 0;
    proof {
        assert(all.take(0) =~= Seq::<Seq<u8>>::empty());
    }
    while i < names.len()
        invariant
            i <= names@.len(),
            all == names_of(names@),
            entries@ == numbers_in(all.take(i as int), wanted@),
        decreases names@.len() - i,
    {
        let name = names[i].as_slice();
        proof {
            assert(all.take(i + 1).drop_last() =~= all.take(i as int));
            assert(all.take(i + 1).last() == name@);
        }
        if has_extension(name, wanted) {
            match stem_as_u64(name) {
                Some(id) => {
                    entries.push(id);
                },
                None => {},
            }
        }
        i += 1;
    }
    proof {
        assert(all.take(names@.len() as int) =~= all);
    }
    sort_values(&mut entries);
    entries
}

} // verus!

verus! {

/// The extension of log files: the bytes of `log`.
pub open spec fn log_extension() -> Seq<u8> {
    seq![108u8, 111u8, 103u8]
}

/// The extension of log files.
pub fn log_extension_bytes() -> (res: Vec<u8>)
    ensures
        res@ == log_extension(),
{
    let res = vec![108u8, 111u8, 103u8];
    assert(res@ =~= log_extension());
    res
}

/// The decimal digits that write `n`, without leading zeros.
pub open spec fn decimal_digits(n: nat) -> Seq<u8>
    decreases n,
{
    if n < 10 {
        seq![(48 + n) as u8]
    } else {
        decimal_digits(n / 10).push((48 + n % 10) as u8)
    }
}

/// The name of the file with the stem `id` and the extension `wanted`.
pub open spec fn file_name(id: u64, wanted: Seq<u8>) -> Seq<u8> {
    decimal_digits(id as nat) + seq![DOT] + wanted
}

/// Whether `text` holds no dot.
pub open spec fn dotless(text: Seq<u8>) -> bool {
    forall|i: int| 0 <= i < text.len() ==> #[trigger] text[i] != DOT
}

/// The decimal digits that write `n`.
pub fn render_u64(n: u64) -> (res: Vec<u8>)
    ensures
        res@ == decimal_digits(n as nat),
    decreases n,
{
    if n < 10 {
        let res = vec![48 + n as u8];
        assert(res@ =~= decimal_digits(n as nat));
        res
    } else {
        let mut res = render_u64(n / 10);
        res.push(48 + (n % 10) as u8);
        res
    }
}

/// The name of the file of the segment `id` with the extension `wanted`:
/// the decimal digits of the id, a dot, and the extension.
pub fn segment_file_name(id: u64, wanted: &[u8]) -> (res: Vec<u8>)
    ensures
        res@ == file_name(id, wanted@),
{
    let mut res = render_u64(id);
    res.push(DOT);
    let mut i: usize = 0;
    while i < wanted.len()
        invariant
            i <= wanted@.len(),
            res@ == decimal_digits(id as nat) + seq![DOT] + wanted@.take(i as int),
        decreases wanted@.len() - i,
    {
        res.push(wanted[i]);
        proof {
            assert(wanted@.take(i + 1) =~= wanted@.take(i as int).push(wanted@[i as int]));
            assert(res@ =~= decimal_digits(id as nat) + seq![DOT] + wanted@.take(i + 1));
        }
        i += 1;
    }
    proof {
        assert(wanted@.take(wanted@.len() as int) =~= wanted@);
    }
    res
}

/// The digits that write a number are digits, and they write that number.
pub proof fn lemma_decimal_digits(n: nat)
    ensures
        decimal_digits(n).len() > 0,
        all_digits(decimal_digits(n)),
        dotless(decimal_digits(n)),
        decimal_value(decimal_digits(n)) == n,
    decreases n,
{
    if n < 10 {
        let d = decimal_digits(n);
        assert(d.drop_last() =~= Seq::<u8>::empty());
        assert(decimal_value(d.drop_last()) == 0);
    } else {
        lemma_decimal_digits(n / 10);
        let d = decimal_digits(n);
        assert(d.drop_last() =~= decimal_digits(n / 10));
        assert(d.last() == (48 + n % 10) as u8);
        assert forall|i: int| 0 <= i < d.len() implies is_digit(#[trigger] d[i]) && d[i] != DOT by {
            if i < d.len() - 1 {
                assert(d[i] == decimal_digits(n / 10)[i]);
            }
        }
    }
}

/// In a name that ends in a dot and a text without dots, that dot is the
/// last one.
pub proof fn lemma_last_dot(front: Seq<u8>, back: Seq<u8>)
    requires
        dotless(back),
    ensures
        last_dot(front + seq![DOT] + back) == Some(front.len() as int),
    decreases back.len(),
{
    let name = front + seq![DOT] + back;
    if back.len() == 0 {
        assert(name.last() == DOT);
    } else {
        assert(name.last() == back.last());
        assert(back.last() == back[back.len() - 1]);
        assert(name.drop_last() =~= front + seq![DOT] + back.drop_last());
        lemma_last_dot(front, back.drop_last());
    }
}

/// A segment's file name reads back: its extension is the one it was
/// made with, and its stem writes the segment's id.
pub proof fn lemma_file_name_reads_back(id: u64, wanted: Seq<u8>)
    requires
        dotless(wanted),
    ensures
        extension(file_name(id, wanted)) == Some(wanted),
        stem_number(file_name(id, wanted)) == Some(id),
        listed(file_name(id, wanted), wanted) == Some(id),
{
    let digits = decimal_digits(id as nat);
    let name = file_name(id, wanted);
    lemma_decimal_digits(id as nat);
    lemma_last_dot(digits, wanted);
    assert(name.subrange(0, digits.len() as int) =~= digits);
    assert(name.subrange(digits.len() as int + 1, name.len() as int) =~= wanted);
}

/// A listing gives the id of every file in it that has the wanted
/// extension and a stem that writes an id.
pub proof fn lemma_listing_holds(names: Seq<Seq<u8>>, wanted: Seq<u8>, at: int)
    requires
        0 <= at < names.len(),
        listed(names[at], wanted) is Some,
    ensures
        numbers_in(names, wanted).contains(listed(names[at], wanted)->Some_0),
    decreases names.len(),
{
    let before = numbers_in(names.drop_last(), wanted);
    let id = listed(names[at], wanted)->Some_0;
    if at == names.len() - 1 {
        assert(before.push(id)[before.len() as int] == id);
    } else {
        lemma_listing_holds(names.drop_last(), wanted, at);
        let k = choose|k: int| 0 <= k < before.len() && before[k] == id;
        match listed(names.last(), wanted) {
            Some(other) => {
                assert(before.push(other)[k] == id);
            },
            None => {},
        }
    }
}

} // verus!
