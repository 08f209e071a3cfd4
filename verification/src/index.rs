//! The in-memory index: a mapping from key to the offset of the latest
//! record for that key.
//!
//! The index is kept as an association list with pairwise-distinct keys;
//! its view is the finite map the list denotes. Point lookups only — no
//! ordering or range queries are needed.

use vstd::prelude::*;

use crate::record::KvError;
use crate::snapshot::{lemma_snapshot_entries_push, lemma_snapshot_round_trip, parse_snapshot,
    parse_snapshot_entries, parse_with_acc, snapshot_bytes, snapshot_entries_bytes};
use crate::wire::{bytes_eq, le64_bytes, read_u64_le, write_u64_le};

verus! {

/// The mapping denoted by an association list, later entries winning.
pub open spec fn assoc_map(e: Seq<(Seq<u8>, u64)>) -> Map<Seq<u8>, u64>
    decreases e.len(),
{
    if e.len() == 0 {
        Map::empty()
    } else {
        assoc_map(e.drop_last()).insert(e.last().0, e.last().1)
    }
}

/// No two entries share a key.
pub open spec fn unique_keys(e: Seq<(Seq<u8>, u64)>) -> bool {
    forall|i: int, j: int| 0 <= i < j < e.len() ==> e[i].0 != e[j].0
}

/// A key is in the denoted map exactly when some entry holds it.
pub proof fn lemma_assoc_map_contains(e: Seq<(Seq<u8>, u64)>, k: Seq<u8>)
    ensures
        assoc_map(e).contains_key(k) <==> exists|i: int| 0 <= i < e.len() && e[i].0 == k,
    decreases e.len(),
{
    if e.len() > 0 {
        let d = e.drop_last();
        lemma_assoc_map_contains(d, k);
        if e.last().0 == k {
            assert(e[e.len() - 1].0 == k);
        } else {
            if exists|i: int| 0 <= i < e.len() && e[i].0 == k {
                let i = choose|i: int| 0 <= i < e.len() && e[i].0 == k;
                assert(i < e.len() - 1);
                assert(d[i].0 == k);
            }
            if exists|i: int| 0 <= i < d.len() && d[i].0 == k {
                let i = choose|i: int| 0 <= i < d.len() && d[i].0 == k;
                assert(e[i].0 == k);
            }
        }
    }
}

/// With pairwise-distinct keys, each entry's key maps to its offset.
pub proof fn lemma_assoc_map_entry(e: Seq<(Seq<u8>, u64)>, i: int)
    requires
        unique_keys(e),
        0 <= i < e.len(),
    ensures
        assoc_map(e).contains_key(e[i].0),
        assoc_map(e)[e[i].0] == e[i].1,
    decreases e.len(),
{
    if i == e.len() - 1 {
    } else {
        let d = e.drop_last();
        assert(unique_keys(d));
        lemma_assoc_map_entry(d, i);
        assert(e[i].0 != e.last().0);
        assert(d[i] == e[i]);
    }
}

/// With pairwise-distinct keys, dropping entry `i` removes exactly its
/// key from the denoted map.
pub proof fn lemma_assoc_map_remove(e: Seq<(Seq<u8>, u64)>, i: int)
    requires
        unique_keys(e),
        0 <= i < e.len(),
    ensures
        assoc_map(e.remove(i)) == assoc_map(e).remove(e[i].0),
    decreases e.len(),
{
    let k = e[i].0;
    let d = e.drop_last();
    if i == e.len() - 1 {
        assert(e.remove(i) =~= d);
        assert(unique_keys(d));
        lemma_assoc_map_contains(d, k);
        assert(!assoc_map(d).contains_key(k));
        assert(assoc_map(e).remove(k) =~= assoc_map(d));
    } else {
        assert(unique_keys(d));
        lemma_assoc_map_remove(d, i);
        assert(d[i] == e[i]);
        assert(e.remove(i).drop_last() =~= d.remove(i));
        assert(e.remove(i).last() == e.last());
        assert(e.remove(i).len() == e.len() - 1);
        assert(assoc_map(e.remove(i)) == assoc_map(d.remove(i)).insert(e.last().0, e.last().1));
        assert(k != e.last().0);
        assert(assoc_map(e.remove(i)) =~= assoc_map(e).remove(k));
    }
}

/// The key-to-offset index.
pub struct Index {
    pub(crate) entries: Vec<(Vec<u8>, u64)>,
}

impl View for Index {
    type V = Map<Seq<u8>, u64>;

    /// The finite map the entries denote.
    closed spec fn view(&self) -> Map<Seq<u8>, u64> {
        assoc_map(self.entry_views())
    }
}

impl Index {
    /// The entries with their keys viewed as byte sequences.
    pub closed spec fn entry_views(&self) -> Seq<(Seq<u8>, u64)> {
        Seq::new(self.entries@.len(), |i: int| (self.entries@[i].0@, self.entries@[i].1))
    }

    /// The entries hold pairwise-distinct keys.
    pub closed spec fn wf(&self) -> bool {
        unique_keys(self.entry_views())
    }

    /// Creates an empty index.
    pub fn new() -> (r: Index)
        ensures
            r.wf(),
            r@ == Map::<Seq<u8>, u64>::empty(),
            r.entry_views() == Seq::<(Seq<u8>, u64)>::empty(),
    {
        let r = Index { entries: Vec::new() };
        proof {
            assert(r.entry_views() =~= Seq::<(Seq<u8>, u64)>::empty());
        }
        r
    }

    /// The position of the entry holding `key`, if one does.
    fn find_entry(&self, key: &[u8]) -> (r: Option<usize>)
        ensures
            match r {
                Some(i) => i < self.entry_views().len() && self.entry_views()[i as int].0
                    == key@,
                None => forall|j: int|
                    0 <= j < self.entry_views().len() ==> self.entry_views()[j].0 != key@,
            },
    {
        let n: usize = self.entries.len();
        let mut i: usize = 0;
        while i < n
            invariant
                n == self.entries@.len(),
                i <= n,
                forall|j: int| 0 <= j < i ==> self.entry_views()[j].0 != key@,
            decreases n - i,
        {
            if bytes_eq(self.entries[i].0.as_slice(), key) {
                return Some(i);
            }
            i = i + 1;
        }
        None
    }

    /// Looks up the offset stored for `key`, if any.
    pub fn lookup(&self, key: &[u8]) -> (r: Option<u64>)
        requires
            self.wf(),
        ensures
            match r {
                Some(offset) => self@.contains_key(key@) && self@[key@] == offset,
                None => !self@.contains_key(key@),
            },
    {
        match self.find_entry(key) {
            Some(i) => {
                proof {
                    lemma_assoc_map_entry(self.entry_views(), i as int);
                }
                Some(self.entries[i].1)
            },
            None => {
                proof {
                    lemma_assoc_map_contains(self.entry_views(), key@);
                }
                None
            },
        }
    }

    /// Removes the entry for `key`, if one exists.
    pub fn remove(&mut self, key: &[u8])
        requires
            old(self).wf(),
        ensures
            final(self).wf(),
            final(self)@ == old(self)@.remove(key@),
    {
        let ghost ev = self.entry_views();
        match self.find_entry(key) {
            Some(i) => {
                proof {
                    lemma_assoc_map_remove(ev, i as int);
                }
                self.entries.remove(i);
                proof {
                    let evn = self.entry_views();
                    assert(evn =~= ev.remove(i as int));
                    assert forall|a: int, b: int|
                        0 <= a < b < evn.len() implies evn[a].0 != evn[b].0 by {
                        let a2 = if a < i { a } else { a + 1 };
                        let b2 = if b < i { b } else { b + 1 };
                        assert(evn[a] == ev[a2]);
                        assert(evn[b] == ev[b2]);
                        assert(0 <= a2 < b2 < ev.len());
                    }
                }
            },
            None => {
                proof {
                    lemma_assoc_map_contains(ev, key@);
                    assert(old(self)@.remove(key@) =~= old(self)@);
                }
            },
        }
    }

    /// Sets the offset stored for `key`, replacing any earlier entry.
    pub fn set(&mut self, key: &[u8], offset: u64)
        requires
            old(self).wf(),
        ensures
            final(self).wf(),
            final(self)@ == old(self)@.insert(key@, offset),
    {
        self.remove(key);
        let ghost mid = *self;
        self.entries.push((vstd::slice::slice_to_vec(key), offset));
        proof {
            let evn = self.entry_views();
            assert(evn =~= mid.entry_views().push((key@, offset)));
            assert(evn.drop_last() =~= mid.entry_views());
            assert(self@ == mid@.insert(key@, offset));
            assert(self@ =~= old(self)@.insert(key@, offset));
            lemma_assoc_map_contains(mid.entry_views(), key@);
            assert forall|a: int, b: int|
                0 <= a < b < evn.len() implies evn[a].0 != evn[b].0 by {
                if b < evn.len() - 1 {
                    assert(evn[a] == mid.entry_views()[a]);
                    assert(evn[b] == mid.entry_views()[b]);
                } else {
                    assert(evn[a] == mid.entry_views()[a]);
                    assert(evn[b].0 == key@);
                }
            }
        }
    }

    /// The number of keys held.
    pub fn len(&self) -> (r: usize)
        ensures
            r == self.entry_views().len(),
    {
        self.entries.len()
    }

    /// Serializes the entries into a snapshot blob: an entry count, then
    /// each entry as key length, key bytes and offset, all little-endian.
    /// The blob parses back to exactly these entries.
    pub fn to_snapshot_bytes(&self) -> (r: Vec<u8>)
        ensures
            r@ == snapshot_bytes(self.entry_views()),
            parse_snapshot(r@) == Some(self.entry_views()),
    {
        let ghost ev = self.entry_views();
        let n: usize = self.entries.len();
        let mut out: Vec<u8> = Vec::new();
        write_u64_le(&mut out, n as u64);
        proof {
            assert(ev.subrange(0, 0) =~= Seq::<(Seq<u8>, u64)>::empty());
            assert(snapshot_entries_bytes(Seq::<(Seq<u8>, u64)>::empty()) == Seq::<u8>::empty());
            assert(out@ =~= le64_bytes(n as u64) + snapshot_entries_bytes(ev.subrange(0, 0)));
        }
        let mut i: usize = 0;
        while i < n
            invariant
                n == self.entries@.len(),
                ev == self.entry_views(),
                i <= n,
                out@ == le64_bytes(n as u64) + snapshot_entries_bytes(ev.subrange(0, i as int)),
                forall|j: int| 0 <= j < i ==> (#[trigger] ev[j]).0.len() <= u64::MAX,
            decreases n - i,
        {
            let key_len: u64 = self.entries[i].0.len() as u64;
            write_u64_le(&mut out, key_len);
            let mut key_bytes = vstd::slice::slice_to_vec(self.entries[i].0.as_slice());
            out.append(&mut key_bytes);
            write_u64_le(&mut out, self.entries[i].1);
            proof {
                lemma_snapshot_entries_push(ev.subrange(0, i as int), ev[i as int]);
                assert(ev.subrange(0, i as int + 1) =~= ev.subrange(0, i as int).push(
                    ev[i as int],
                ));
                assert(out@ =~= le64_bytes(n as u64) + snapshot_entries_bytes(
                    ev.subrange(0, i as int + 1),
                ));
            }
            i = i + 1;
        }
        proof {
            assert(ev.subrange(0, n as int) =~= ev);
            lemma_snapshot_round_trip(ev);
        }
        out
    }

    /// Decodes a snapshot blob into a fresh index, entries folded in
    /// order with later entries for a key winning. A blob that does not
    /// parse exactly is rejected.
    pub fn index_from_snapshot(bytes: &[u8]) -> (r: Result<Index, KvError>)
        ensures
            match parse_snapshot(bytes@) {
                Some(entries) => r matches Ok(idx) && idx.wf() && idx@ == assoc_map(entries),
                None => r == Err::<Index, KvError>(KvError::SerializationFailure),
            },
    {
        let n: usize = bytes.len();
        if n < 8 {
            return Err(KvError::SerializationFailure);
        }
        let count: u64 = read_u64_le(bytes, 0);
        let mut idx = Index::new();
        let mut pos: usize = 8;
        let mut remaining: u64 = count;
        let ghost mut acc: Seq<(Seq<u8>, u64)> = Seq::empty();
        proof {
            match parse_snapshot_entries(bytes@, 8, count as nat) {
                None => {},
                Some(rest) => {
                    assert(Seq::<(Seq<u8>, u64)>::empty() + rest =~= rest);
                },
            }
        }
        while remaining > 0
            invariant
                n == bytes@.len(),
                8 <= pos <= n,
                idx.wf(),
                idx@ == assoc_map(acc),
                parse_snapshot(bytes@) == parse_with_acc(acc, bytes@, pos as int,
                    remaining as nat),
            decreases remaining,
        {
            if n - pos < 8 {
                return Err(KvError::SerializationFailure);
            }
            let klen64 = read_u64_le(bytes, pos);
            let avail: u64 = (n - pos - 8) as u64;
            if avail < 8 || klen64 > avail - 8 {
                return Err(KvError::SerializationFailure);
            }
            let klen: usize = klen64 as usize;
            let key = vstd::slice::slice_to_vec(
                vstd::slice::slice_subrange(bytes, pos + 8, pos + 8 + klen),
            );
            let offset = read_u64_le(bytes, pos + 8 + klen);
            idx.set(key.as_slice(), offset);
            proof {
                let x = (key@, offset);
                assert(acc.push(x).drop_last() =~= acc);
                let old_acc = acc;
                acc = acc.push(x);
                match parse_snapshot_entries(bytes@, pos + 8 + klen + 8, (remaining - 1) as nat) {
                    None => {},
                    Some(rest) => {
                        assert(old_acc + (seq![x] + rest) =~= acc + rest);
                    },
                }
            }
            pos = pos + 8 + klen + 8;
            remaining = remaining - 1;
        }
        if pos == n {
            proof {
                assert(parse_snapshot_entries(bytes@, pos as int, 0) == Some(
                    Seq::<(Seq<u8>, u64)>::empty(),
                ));
                assert(acc + Seq::<(Seq<u8>, u64)>::empty() =~= acc);
            }
            Ok(idx)
        } else {
            Err(KvError::SerializationFailure)
        }
    }
}

/// The index's map is exactly the mapping its entry list denotes.
pub proof fn lemma_index_view(idx: &Index)
    ensures
        idx@ == assoc_map(idx.entry_views()),
{
}

} // verus!
