//! The persisted index snapshot format.
//!
//! A snapshot is a little-endian `u64` entry count followed by each
//! entry as key length (`u64`), key bytes, and offset (`u64`). The
//! format is independent of the log's record encoding; what matters, and
//! is proved here, is that it round-trips exactly.

use vstd::prelude::*;

use crate::wire::{le64_at, le64_bytes, lemma_le64_round_trip};

verus! {

/// The encoded form of one snapshot entry.
pub open spec fn snapshot_entry_bytes(key: Seq<u8>, offset: u64) -> Seq<u8> {
    le64_bytes(key.len() as u64) + key + le64_bytes(offset)
}

/// The concatenated encodings of a list of entries.
pub open spec fn snapshot_entries_bytes(e: Seq<(Seq<u8>, u64)>) -> Seq<u8>
    decreases e.len(),
{
    if e.len() == 0 {
        Seq::empty()
    } else {
        snapshot_entry_bytes(e[0].0, e[0].1) + snapshot_entries_bytes(e.drop_first())
    }
}

/// The full snapshot: entry count, then the entries.
pub open spec fn snapshot_bytes(e: Seq<(Seq<u8>, u64)>) -> Seq<u8> {
    le64_bytes(e.len() as u64) + snapshot_entries_bytes(e)
}

/// Parsing `count` entries from position `pos`, requiring the bytes to
/// be consumed exactly.
pub open spec fn parse_snapshot_entries(b: Seq<u8>, pos: int, count: nat) -> Option<
    Seq<(Seq<u8>, u64)>,
>
    decreases count,
{
    if count == 0 {
        if pos == b.len() {
            Some(Seq::empty())
        } else {
            None
        }
    } else if 0 <= pos && pos + 8 <= b.len() {
        let klen = le64_at(b, pos) as int;
        if pos + 8 + klen + 8 <= b.len() {
            let key = b.subrange(pos + 8, pos + 8 + klen);
            let offset = le64_at(b, pos + 8 + klen);
            match parse_snapshot_entries(b, pos + 8 + klen + 8, (count - 1) as nat) {
                None => None,
                Some(rest) => Some(seq![(key, offset)] + rest),
            }
        } else {
            None
        }
    } else {
        None
    }
}

/// Parsing a whole snapshot blob.
pub open spec fn parse_snapshot(b: Seq<u8>) -> Option<Seq<(Seq<u8>, u64)>> {
    if b.len() >= 8 {
        parse_snapshot_entries(b, 8, le64_at(b, 0) as nat)
    } else {
        None
    }
}

/// Parsing the remainder of a blob after `acc` entries are already
/// decoded.
pub open spec fn parse_with_acc(
    acc: Seq<(Seq<u8>, u64)>,
    b: Seq<u8>,
    pos: int,
    count: nat,
) -> Option<Seq<(Seq<u8>, u64)>> {
    match parse_snapshot_entries(b, pos, count) {
        None => None,
        Some(rest) => Some(acc + rest),
    }
}

/// Encoding one more entry appends its bytes.
pub proof fn lemma_snapshot_entries_push(e: Seq<(Seq<u8>, u64)>, x: (Seq<u8>, u64))
    ensures
        snapshot_entries_bytes(e.push(x)) == snapshot_entries_bytes(e) + snapshot_entry_bytes(
            x.0,
            x.1,
        ),
    decreases e.len(),
{
    if e.len() == 0 {
        assert(e.push(x)[0] == x);
        assert(e.push(x).drop_first() =~= Seq::<(Seq<u8>, u64)>::empty());
        assert(snapshot_entries_bytes(Seq::<(Seq<u8>, u64)>::empty()) == Seq::<u8>::empty());
        assert(snapshot_entries_bytes(e) == Seq::<u8>::empty());
        assert(snapshot_entries_bytes(e.push(x)) == snapshot_entry_bytes(x.0, x.1)
            + snapshot_entries_bytes(e.push(x).drop_first()));
        assert(snapshot_entries_bytes(e.push(x)) =~= snapshot_entries_bytes(e)
            + snapshot_entry_bytes(x.0, x.1));
    } else {
        assert(e.push(x)[0] == e[0]);
        assert(e.push(x).drop_first() =~= e.drop_first().push(x));
        lemma_snapshot_entries_push(e.drop_first(), x);
        assert(snapshot_entries_bytes(e.push(x)) =~= snapshot_entries_bytes(e)
            + snapshot_entry_bytes(x.0, x.1));
    }
}

/// A byte tail that is exactly the encoding of `e` parses back to `e`.
pub proof fn lemma_snapshot_entries_round_trip(b: Seq<u8>, pos: int, e: Seq<(Seq<u8>, u64)>)
    requires
        0 <= pos <= b.len(),
        b.subrange(pos, b.len() as int) == snapshot_entries_bytes(e),
        forall|i: int| 0 <= i < e.len() ==> (#[trigger] e[i]).0.len() <= u64::MAX,
    ensures
        parse_snapshot_entries(b, pos, e.len()) == Some(e),
    decreases e.len(),
{
    let tail = b.subrange(pos, b.len() as int);
    if e.len() == 0 {
        assert(tail.len() == 0);
        assert(pos == b.len());
    } else {
        let x = e[0];
        let klen = x.0.len() as int;
        let rest = e.drop_first();
        assert(snapshot_entries_bytes(e) == snapshot_entry_bytes(x.0, x.1)
            + snapshot_entries_bytes(rest));
        assert(snapshot_entry_bytes(x.0, x.1).len() == 16 + klen);
        assert(pos + 16 + klen <= b.len());
        assert(b.subrange(pos, pos + 8) =~= le64_bytes(x.0.len() as u64));
        crate::wire::lemma_le64_at_of_bytes(b, pos, x.0.len() as u64);
        assert(le64_at(b, pos) as int == klen);
        assert forall|j: int| 0 <= j < klen implies b.subrange(pos + 8, pos + 8 + klen)[j]
            == x.0[j] by {
            assert(tail[8 + j] == x.0[j]);
        }
        assert(b.subrange(pos + 8, pos + 8 + klen) =~= x.0);
        assert forall|j: int| 0 <= j < 8 implies b.subrange(pos + 8 + klen, pos + 16 + klen)[j]
            == le64_bytes(x.1)[j] by {
            assert(tail[8 + klen + j] == le64_bytes(x.1)[j]);
        }
        assert(b.subrange(pos + 8 + klen, pos + 16 + klen) =~= le64_bytes(x.1));
        crate::wire::lemma_le64_at_of_bytes(b, pos + 8 + klen, x.1);
        assert(le64_at(b, pos + 8 + klen) == x.1);
        assert forall|j: int| 0 <= j < b.len() - (pos + 16 + klen) implies b.subrange(
            pos + 16 + klen,
            b.len() as int,
        )[j] == snapshot_entries_bytes(rest)[j] by {
            assert(tail[16 + klen + j] == snapshot_entries_bytes(rest)[j]);
        }
        assert(b.subrange(pos + 16 + klen, b.len() as int) =~= snapshot_entries_bytes(rest));
        assert forall|i: int| 0 <= i < rest.len() implies (#[trigger] rest[i]).0.len()
            <= u64::MAX by {
            assert(rest[i] == e[i + 1]);
        }
        lemma_snapshot_entries_round_trip(b, pos + 16 + klen, rest);
        assert(seq![(b.subrange(pos + 8, pos + 8 + klen), le64_at(b, pos + 8 + klen))] + rest
            =~= e);
    }
}

/// Snapshot round trip: decoding an encoded entry list yields exactly
/// the entries that were encoded.
pub proof fn lemma_snapshot_round_trip(e: Seq<(Seq<u8>, u64)>)
    requires
        e.len() <= u64::MAX,
        forall|i: int| 0 <= i < e.len() ==> (#[trigger] e[i]).0.len() <= u64::MAX,
    ensures
        parse_snapshot(snapshot_bytes(e)) == Some(e),
{
    let b = snapshot_bytes(e);
    assert(forall|j: int| 0 <= j < 8 ==> b[j] == le64_bytes(e.len() as u64)[j]);
    lemma_le64_round_trip(e.len() as u64);
    assert(le64_at(b, 0) == e.len() as u64);
    assert(b.subrange(8, b.len() as int) =~= snapshot_entries_bytes(e));
    lemma_snapshot_entries_round_trip(b, 8, e);
}

} // verus!
