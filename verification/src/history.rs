//! What a history of records means for lookups.
//!
//! A scan folds records into an index, oldest first: a record with a
//! non-empty value sets its key to its offset, a tombstone removes the
//! key. The functions here define that fold and the per-key views of a
//! history — latest record, oldest record, live value — and the lemmas
//! relate them: they are the general laws of the store.

use vstd::prelude::*;

use crate::record::Record;

verus! {

/// Folding one record into a key-to-offset map: a record with a
/// non-empty value sets its key to its offset; a tombstone removes it.
pub open spec fn index_step(m: Map<Seq<u8>, u64>, r: Record) -> Map<Seq<u8>, u64> {
    if r.value.len() > 0 {
        m.insert(r.key, r.off as u64)
    } else {
        m.remove(r.key)
    }
}

/// Folding a whole history into `m`, oldest record first.
pub open spec fn index_fold(m: Map<Seq<u8>, u64>, h: Seq<Record>) -> Map<Seq<u8>, u64>
    decreases h.len(),
{
    if h.len() == 0 {
        m
    } else {
        index_step(index_fold(m, h.drop_last()), h.last())
    }
}

/// The index a full rebuild of `h` from an empty map produces.
pub open spec fn index_built(h: Seq<Record>) -> Map<Seq<u8>, u64> {
    index_fold(Map::empty(), h)
}

/// The latest record for key `k`, if any.
pub open spec fn last_record_for(h: Seq<Record>, k: Seq<u8>) -> Option<Record>
    decreases h.len(),
{
    if h.len() == 0 {
        None
    } else if h.last().key == k {
        Some(h.last())
    } else {
        last_record_for(h.drop_last(), k)
    }
}

/// The oldest record for key `k`, if any.
pub open spec fn first_record_for(h: Seq<Record>, k: Seq<u8>) -> Option<Record>
    decreases h.len(),
{
    if h.len() == 0 {
        None
    } else if h[0].key == k {
        Some(h[0])
    } else {
        first_record_for(h.drop_first(), k)
    }
}

/// The value a point lookup of `k` over `h` owes: the value of the
/// latest record for `k`, absent if there is none or it is a tombstone.
pub open spec fn live_value(h: Seq<Record>, k: Seq<u8>) -> Option<Seq<u8>> {
    match last_record_for(h, k) {
        None => None,
        Some(r) => if r.value.len() > 0 {
            Some(r.value)
        } else {
            None
        },
    }
}

/// Index transparency, one step at a time: folding a history extended by
/// one record equals folding the history and then applying that record's
/// step. So an index rebuilt by a full scan equals one built
/// incrementally by the same inserts and deletes replayed in order.
pub proof fn lemma_index_fold_push(m: Map<Seq<u8>, u64>, h: Seq<Record>, r: Record)
    ensures
        index_fold(m, h.push(r)) == index_step(index_fold(m, h), r),
{
    assert(h.push(r).drop_last() =~= h);
    assert(h.push(r).last() == r);
}

/// The rebuilt index agrees with the latest record of every key: a key
/// is present exactly when its latest record exists and is no tombstone,
/// and then it maps to that record's offset.
pub proof fn lemma_index_built_last(h: Seq<Record>, k: Seq<u8>)
    ensures
        match last_record_for(h, k) {
            None => !index_built(h).contains_key(k),
            Some(r) => if r.value.len() > 0 {
                index_built(h).contains_key(k) && index_built(h)[k] == r.off as u64
            } else {
                !index_built(h).contains_key(k)
            },
        },
    decreases h.len(),
{
    if h.len() > 0 {
        let d = h.drop_last();
        let r = h.last();
        lemma_index_built_last(d, k);
        assert(index_built(h) == index_step(index_built(d), r));
    }
}

/// A latest record for `k` has key `k` and is an element of the history.
pub proof fn lemma_last_record_in(h: Seq<Record>, k: Seq<u8>)
    ensures
        match last_record_for(h, k) {
            None => true,
            Some(r) => r.key == k && exists|i: int| 0 <= i < h.len() && h[i] == r,
        },
    decreases h.len(),
{
    if h.len() > 0 {
        if h.last().key == k {
            assert(h[h.len() - 1] == h.last());
        } else {
            let d = h.drop_last();
            lemma_last_record_in(d, k);
            match last_record_for(d, k) {
                None => {},
                Some(r) => {
                    let i = choose|i: int| 0 <= i < d.len() && d[i] == r;
                    assert(h[i] == r);
                },
            }
        }
    }
}

/// Last write wins: after appending a record, a lookup of its key sees
/// exactly that record's value — absent, if it is a tombstone.
pub proof fn lemma_last_write_wins(h: Seq<Record>, r: Record)
    ensures
        live_value(h.push(r), r.key) == (if r.value.len() > 0 {
            Some(r.value)
        } else {
            None::<Seq<u8>>
        }),
{
    assert(h.push(r).last() == r);
}

/// Appending a record for one key changes nothing another key sees.
pub proof fn lemma_append_other_key(h: Seq<Record>, r: Record, k: Seq<u8>)
    requires
        r.key != k,
    ensures
        live_value(h.push(r), k) == live_value(h, k),
        first_record_for(h.push(r), k) == first_record_for(h, k),
    decreases h.len(),
{
    assert(h.push(r).last() == r);
    assert(h.push(r).drop_last() =~= h);
    if h.len() == 0 {
        assert(h.push(r)[0] == r);
        assert(h.push(r).drop_first() =~= Seq::<Record>::empty());
        assert(first_record_for(Seq::<Record>::empty(), k) is None);
        assert(first_record_for(h.push(r), k) is None);
        assert(first_record_for(h, k) is None);
    } else {
        assert(h.push(r)[0] == h[0]);
        if h[0].key != k {
            assert(h.push(r).drop_first() =~= h.drop_first().push(r));
            lemma_append_other_key(h.drop_first(), r, k);
        }
    }
}

/// An append never changes the oldest record already present for a key.
pub proof fn lemma_first_record_stable(h: Seq<Record>, r: Record, k: Seq<u8>)
    requires
        first_record_for(h, k) is Some,
    ensures
        first_record_for(h.push(r), k) == first_record_for(h, k),
    decreases h.len(),
{
    assert(h.push(r)[0] == h[0]);
    if h[0].key == k {
    } else {
        assert(h.push(r).drop_first() =~= h.drop_first().push(r));
        lemma_first_record_stable(h.drop_first(), r, k);
    }
}

/// Tombstone: appending a tombstone makes its key absent from lookups,
/// while a scan for the key's oldest record still finds what it found
/// before — the history is never rewritten.
pub proof fn lemma_tombstone(h: Seq<Record>, r: Record)
    requires
        r.value.len() == 0,
    ensures
        live_value(h.push(r), r.key) == None::<Seq<u8>>,
        first_record_for(h, r.key) is Some ==> first_record_for(h.push(r), r.key)
            == first_record_for(h, r.key),
{
    lemma_last_write_wins(h, r);
    if first_record_for(h, r.key) is Some {
        lemma_first_record_stable(h, r, r.key);
    }
}

} // verus!
