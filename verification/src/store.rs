//! The store: one backing byte stream plus one index.
//!
//! All mutations append immutable records to the stream; point reads go
//! through the index to a stored offset; `load` and `find` scan the whole
//! log. Scans save the stream's cursor and restore it on every exit path,
//! so they are transparent to interleaved positioned reads and writes.
//!
//! Deliberate policy: folding a record with an empty value into the index
//! always removes the key — `delete` leaves no index entry pointing at
//! its tombstone, and a rebuild scan reproduces exactly the index that
//! incremental inserts and deletes maintain.

use vstd::prelude::*;

use crate::checksum::checksum_ieee;
use crate::history::{index_built, index_fold, index_step, live_value, first_record_for,
    last_record_for, lemma_index_built_last, lemma_index_fold_push, lemma_last_record_in};
use crate::index::{assoc_map, lemma_index_view, Index};
use crate::record::{end_kind_at, header_in_bounds, log_complete, log_end_kind, log_records,
    checksum_matches, lemma_parse_append_record, lemma_parse_records_ok, parse_records,
    payload_in_bounds, record_at, record_bytes, record_end, record_ok_at, scan_stop,
    KeyValuePair, KvError, LogEnd, Record};
use crate::snapshot::{parse_snapshot, snapshot_bytes};
use crate::wire::{bytes_eq, read_u32_le, write_u32_le};

verus! {

/// The decision a scan consumer returns for one visited record: fold it
/// into the index as an insert, fold it as a delete, skip it, or stop
/// the scan.
pub enum IndexOp {
    Insert(KeyValuePair, u64),
    Delete(KeyValuePair, u64),
    End,
    Nop,
}

/// A log-structured, append-only key-value store over an in-memory byte
/// stream.
///
/// The `index` field is public, as the mapping it holds is part of the
/// store's interface; the contracts of the operations assume its keys
/// stay pairwise distinct, which every operation here preserves.
pub struct RiaKV {
    pub f: Vec<u8>,
    pub cursor: u64,
    pub index: Index,
}

impl RiaKV {
    /// The bytes of the backing stream.
    pub open spec fn stream(&self) -> Seq<u8> {
        self.f@
    }

    /// The stream's cursor position.
    pub open spec fn stream_pos(&self) -> u64 {
        self.cursor
    }

    /// The records the log parses to, in append order.
    pub open spec fn history(&self) -> Seq<Record> {
        log_records(self.stream())
    }

    /// Every byte of the stream belongs to a parsed record.
    pub open spec fn complete(&self) -> bool {
        log_complete(self.stream())
    }

    /// The index equals a full rebuild from the log.
    pub open spec fn index_synced(&self) -> bool {
        self.index@ == index_built(self.history())
    }

    /// Well-formed: the index keys are pairwise distinct and the cursor
    /// lies within the stream.
    pub open spec fn wf(&self) -> bool {
        self.index.wf() && self.cursor <= self.f@.len()
    }

    /// Creates a store over a fresh, empty in-memory buffer with the
    /// given initial capacity.
    pub fn open_from_in_memory_buffer(capacity: usize) -> (store: RiaKV)
        ensures
            store.wf(),
            store.stream() == Seq::<u8>::empty(),
            store.history() == Seq::<Record>::empty(),
            store.complete(),
            store.index@ == Map::<Seq<u8>, u64>::empty(),
            store.index_synced(),
            store.stream_pos() == 0,
    {
        let store = RiaKV { f: Vec::with_capacity(capacity), cursor: 0, index: Index::new() };
        proof {
            assert(!record_ok_at(store.f@, 0));
            assert(store.history() =~= Seq::<Record>::empty());
            assert(scan_stop(store.f@, 0) == 0);
        }
        store
    }

    /// Wraps the bytes of an existing stream — say, read from a
    /// file-backed log — without scanning them. The index starts empty;
    /// call `load` or `load_index` to populate it.
    pub fn open_from_buffer(buffer: Vec<u8>) -> (store: RiaKV)
        ensures
            store.wf(),
            store.stream() == buffer@,
            store.index@ == Map::<Seq<u8>, u64>::empty(),
            store.stream_pos() == 0,
    {
        RiaKV { f: buffer, cursor: 0, index: Index::new() }
    }

    /// Moves the cursor to the end of the stream and returns the
    /// position; any subsequent read from there finds no bytes.
    pub fn seek_to_end(&mut self) -> (r: u64)
        requires
            old(self).wf(),
        ensures
            final(self).wf(),
            final(self).stream() == old(self).stream(),
            final(self).index == old(self).index,
            r == old(self).stream().len(),
            final(self).stream_pos() == r,
    {
        self.cursor = self.f.len() as u64;
        self.cursor
    }

    /// The current cursor position of the backing stream.
    pub fn stream_position(&self) -> (r: u64)
        ensures
            r == self.stream_pos(),
    {
        self.cursor
    }

    /// The raw bytes of the backing stream.
    pub fn storage_bytes(&self) -> (r: &Vec<u8>)
        ensures
            r@ == self.stream(),
    {
        &self.f
    }

    /// Decodes the record starting at `position` in `f`: reads the
    /// checksum, key length and value length as little-endian `u32`s,
    /// reads the payload they declare, verifies the checksum, and splits
    /// the payload into key and value. Returns the pair together with the
    /// offset just past the record.
    pub fn process_record(f: &Vec<u8>, position: u64) -> (r: Result<(KeyValuePair, u64), KvError>)
        ensures
            match r {
                Ok(decoded) => {
                    let pos = position as int;
                    &&& record_ok_at(f@, pos)
                    &&& decoded.0.key@ == record_at(f@, pos).key
                    &&& decoded.0.value@ == record_at(f@, pos).value
                    &&& decoded.1 == record_end(f@, pos)
                },
                Err(KvError::UnexpectedEnd) => !payload_in_bounds(f@, position as int),
                Err(KvError::DataCorruption) => payload_in_bounds(f@, position as int)
                    && !checksum_matches(f@, position as int),
                Err(KvError::SerializationFailure) => false,
            },
    {
        let n: usize = f.len();
        if n < 12 || position > (n - 12) as u64 {
            return Err(KvError::UnexpectedEnd);
        }
        let pos: usize = position as usize;
        let saved_checksum = read_u32_le(f.as_slice(), pos);
        let key_len = read_u32_le(f.as_slice(), pos + 4);
        let val_len = read_u32_le(f.as_slice(), pos + 8);
        let data_len: u64 = key_len as u64 + val_len as u64;
        if data_len > (n as u64) - (pos as u64) - 12 {
            return Err(KvError::UnexpectedEnd);
        }
        let klen: usize = key_len as usize;
        let vlen: usize = val_len as usize;
        let payload = vstd::slice::slice_subrange(f.as_slice(), pos + 12, pos + 12 + klen + vlen);
        let checksum = checksum_ieee(payload);
        if checksum != saved_checksum {
            return Err(KvError::DataCorruption);
        }
        let key = vstd::slice::slice_to_vec(
            vstd::slice::slice_subrange(f.as_slice(), pos + 12, pos + 12 + klen),
        );
        let value = vstd::slice::slice_to_vec(
            vstd::slice::slice_subrange(f.as_slice(), pos + 12 + klen, pos + 12 + klen + vlen),
        );
        Ok((KeyValuePair { key, value }, position + 12 + data_len))
    }

    /// Reads the record stored at `position`, leaving the cursor just
    /// past it; on failure the cursor is unchanged.
    pub fn get_at(&mut self, position: u64) -> (r: Result<KeyValuePair, KvError>)
        requires
            old(self).wf(),
        ensures
            final(self).wf(),
            final(self).stream() == old(self).stream(),
            final(self).index == old(self).index,
            match r {
                Ok(kv) => {
                    let pos = position as int;
                    &&& record_ok_at(old(self).stream(), pos)
                    &&& kv.key@ == record_at(old(self).stream(), pos).key
                    &&& kv.value@ == record_at(old(self).stream(), pos).value
                    &&& final(self).stream_pos() == record_end(old(self).stream(), pos)
                },
                Err(KvError::UnexpectedEnd) => !payload_in_bounds(old(self).stream(), position as int)
                    && final(self).stream_pos() == old(self).stream_pos(),
                Err(KvError::DataCorruption) => payload_in_bounds(old(self).stream(), position as int)
                    && !checksum_matches(old(self).stream(), position as int)
                    && final(self).stream_pos() == old(self).stream_pos(),
                Err(KvError::SerializationFailure) => false,
            },
    {
        match Self::process_record(&self.f, position) {
            Ok((kv, next)) => {
                self.cursor = next;
                Ok(kv)
            },
            Err(e) => Err(e),
        }
    }

    /// Encodes the pair and appends the record at the end of the stream,
    /// wherever the cursor stood, and returns the offset the record
    /// begins at. The index is not touched; the cursor ends at the new
    /// end of the stream.
    pub fn insert_but_ignore_index(&mut self, key: &[u8], value: &[u8]) -> (r: Result<
        u64,
        KvError,
    >)
        requires
            old(self).wf(),
            key@.len() <= u32::MAX,
            value@.len() <= u32::MAX,
            old(self).stream().len() + 12 + key@.len() + value@.len() <= usize::MAX,
        ensures
            final(self).wf(),
            final(self).index == old(self).index,
            final(self).stream() == old(self).stream() + record_bytes(key@, value@),
            r == Ok::<u64, KvError>(old(self).stream().len() as u64),
            final(self).stream_pos() == final(self).stream().len(),
    {
        let mut payload = vstd::slice::slice_to_vec(key);
        let mut value_tail = vstd::slice::slice_to_vec(value);
        payload.append(&mut value_tail);
        let checksum = checksum_ieee(payload.as_slice());
        let key_len: u32 = key.len() as u32;
        let val_len: u32 = value.len() as u32;
        let current_position: u64 = self.f.len() as u64;
        write_u32_le(&mut self.f, checksum);
        write_u32_le(&mut self.f, key_len);
        write_u32_le(&mut self.f, val_len);
        self.f.append(&mut payload);
        self.cursor = self.f.len() as u64;
        proof {
            assert(self.f@ =~= old(self).f@ + record_bytes(key@, value@));
        }
        Ok(current_position)
    }

    /// Appends a record for the pair and folds it into the index: a
    /// non-empty value sets the key to the new record's offset, an empty
    /// value is a tombstone and removes the key.
    pub fn insert(&mut self, key: &[u8], value: &[u8]) -> (r: Result<(), KvError>)
        requires
            old(self).wf(),
            key@.len() <= u32::MAX,
            value@.len() <= u32::MAX,
            old(self).stream().len() + 12 + key@.len() + value@.len() <= usize::MAX,
        ensures
            final(self).wf(),
            r == Ok::<(), KvError>(()),
            final(self).stream() == old(self).stream() + record_bytes(key@, value@),
            final(self).stream_pos() == final(self).stream().len(),
            value@.len() > 0 ==> final(self).index@ == old(self).index@.insert(
                key@,
                old(self).stream().len() as u64,
            ),
            value@.len() == 0 ==> final(self).index@ == old(self).index@.remove(key@),
            old(self).complete() ==> final(self).complete() && final(self).history() == old(
                self,
            ).history().push(
                Record { off: old(self).stream().len() as int, key: key@, value: value@ },
            ),
            old(self).complete() && old(self).index_synced() ==> final(self).index_synced(),
    {
        let position = match self.insert_but_ignore_index(key, value) {
            Ok(position) => position,
            Err(e) => {
                return Err(e);
            },
        };
        if value.len() > 0 {
            self.index.set(key, position);
        } else {
            self.index.remove(key);
        }
        proof {
            if old(self).complete() {
                let rec = Record {
                    off: old(self).stream().len() as int,
                    key: key@,
                    value: value@,
                };
                lemma_parse_append_record(old(self).f@, key@, value@, 0);
                assert(final(self).history() == old(self).history().push(rec));
                if old(self).index_synced() {
                    lemma_index_fold_push(Map::empty(), old(self).history(), rec);
                    assert(self.index@ == index_step(index_built(old(self).history()), rec));
                }
            }
        }
        Ok(())
    }

    /// Semantically identical to `insert`: log-structured immutability
    /// means every update is a new append.
    #[inline]
    pub fn update(&mut self, key: &[u8], value: &[u8]) -> (r: Result<(), KvError>)
        requires
            old(self).wf(),
            key@.len() <= u32::MAX,
            value@.len() <= u32::MAX,
            old(self).stream().len() + 12 + key@.len() + value@.len() <= usize::MAX,
        ensures
            final(self).wf(),
            r == Ok::<(), KvError>(()),
            final(self).stream() == old(self).stream() + record_bytes(key@, value@),
            final(self).stream_pos() == final(self).stream().len(),
            value@.len() > 0 ==> final(self).index@ == old(self).index@.insert(
                key@,
                old(self).stream().len() as u64,
            ),
            value@.len() == 0 ==> final(self).index@ == old(self).index@.remove(key@),
            old(self).complete() ==> final(self).complete() && final(self).history() == old(
                self,
            ).history().push(
                Record { off: old(self).stream().len() as int, key: key@, value: value@ },
            ),
            old(self).complete() && old(self).index_synced() ==> final(self).index_synced(),
    {
        self.insert(key, value)
    }

    /// Appends a tombstone record for `key` and removes the key from the
    /// index: a later `get` finds the key absent, while the key's history
    /// stays in the log.
    pub fn delete(&mut self, key: &[u8]) -> (r: Result<(), KvError>)
        requires
            old(self).wf(),
            key@.len() <= u32::MAX,
            old(self).stream().len() + 12 + key@.len() <= usize::MAX,
        ensures
            final(self).wf(),
            r == Ok::<(), KvError>(()),
            final(self).stream() == old(self).stream() + record_bytes(key@, Seq::<u8>::empty()),
            final(self).stream_pos() == final(self).stream().len(),
            final(self).index@ == old(self).index@.remove(key@),
            old(self).complete() ==> final(self).complete() && final(self).history() == old(
                self,
            ).history().push(
                Record { off: old(self).stream().len() as int, key: key@, value: Seq::empty() },
            ),
            old(self).complete() && old(self).index_synced() ==> final(self).index_synced(),
    {
        let empty_value: Vec<u8> = Vec::new();
        self.insert(key, empty_value.as_slice())
    }

    /// Looks up `key` through the index. An absent key returns `None`
    /// without touching the stream. A present key names an offset; the
    /// record found there decides: a non-empty value is returned, an
    /// empty one reads as absent. With an index that matches the log,
    /// the result is exactly the key's live value.
    pub fn get(&mut self, key: &[u8]) -> (r: Result<Option<Vec<u8>>, KvError>)
        requires
            old(self).wf(),
        ensures
            final(self).wf(),
            final(self).stream() == old(self).stream(),
            final(self).index == old(self).index,
            !old(self).index@.contains_key(key@) ==> r == Ok::<Option<Vec<u8>>, KvError>(None)
                && final(self).stream_pos() == old(self).stream_pos(),
            forall|i: int|
                0 <= i < old(self).history().len() && old(self).index@.contains_key(key@) && (
                #[trigger] old(self).history()[i]).off == old(self).index@[key@] as int
                    ==> match r {
                    Ok(Some(v)) => old(self).history()[i].value == v@ && old(
                        self,
                    ).history()[i].value.len() > 0,
                    Ok(None) => old(self).history()[i].value.len() == 0,
                    Err(_) => false,
                },
            old(self).index_synced() ==> match r {
                Ok(v_opt) => match (v_opt, live_value(old(self).history(), key@)) {
                    (Some(v), Some(lv)) => v@ == lv,
                    (None, None) => true,
                    _ => false,
                },
                Err(_) => false,
            },
    {
        let ghost h = self.history();
        let ghost log = self.f@;
        let stream_len: usize = self.f.len();
        let position = match self.index.lookup(key) {
            None => {
                proof {
                    if old(self).index_synced() {
                        lemma_index_built_last(h, key@);
                    }
                }
                return Ok(None);
            },
            Some(position) => position,
        };
        proof {
            assert forall|i: int|
                0 <= i < h.len() && (#[trigger] h[i]).off == position as int implies record_ok_at(
                log,
                position as int,
            ) && record_at(log, position as int) == h[i] by {
                lemma_parse_records_ok(log, 0, i);
            }
            if old(self).index_synced() {
                lemma_index_built_last(h, key@);
                lemma_last_record_in(h, key@);
                match last_record_for(h, key@) {
                    Some(rec) => {
                        let i = choose|i: int| 0 <= i < h.len() && h[i] == rec;
                        lemma_parse_records_ok(log, 0, i);
                        assert(0 <= rec.off && rec.off + 12 <= stream_len);
                        assert(rec.off as u64 == position);
                        assert(rec.off == position as int);
                    },
                    None => {
                        assert(false);
                    },
                }
            }
        }
        match self.get_at(position) {
            Ok(kv) => {
                if kv.value.len() > 0 {
                    Ok(Some(kv.value))
                } else {
                    Ok(None)
                }
            },
            Err(e) => Err(e),
        }
    }

    /// Folds one scan decision into the index: `Insert` sets the
    /// record's key to the given offset, `Delete` removes it, `Nop`
    /// leaves the index alone, and `End` asks the scan to stop. Returns
    /// whether the scan should continue.
    pub fn apply_index_op(&mut self, op: IndexOp) -> (cont: bool)
        requires
            old(self).wf(),
        ensures
            final(self).wf(),
            final(self).stream() == old(self).stream(),
            final(self).stream_pos() == old(self).stream_pos(),
            match op {
                IndexOp::Insert(kv, position) => final(self).index@ == old(self).index@.insert(
                    kv.key@,
                    position,
                ) && cont,
                IndexOp::Delete(kv, _) => final(self).index@ == old(self).index@.remove(kv.key@)
                    && cont,
                IndexOp::Nop => final(self).index == old(self).index && cont,
                IndexOp::End => final(self).index == old(self).index && !cont,
            },
    {
        match op {
            IndexOp::Insert(kv, position) => {
                self.index.set(kv.key.as_slice(), position);
                true
            },
            IndexOp::Delete(kv, _) => {
                self.index.remove(kv.key.as_slice());
                true
            },
            IndexOp::Nop => true,
            IndexOp::End => false,
        }
    }

    /// Rebuilds the index from a full scan of the log, folding every
    /// record in append order: an insert for a non-empty value, a delete
    /// for a tombstone. The cursor is restored on every exit path. A
    /// scan that hits a truncated or corrupt record reports it, with the
    /// records before the damage already folded in.
    pub fn load(&mut self) -> (r: Result<(), KvError>)
        requires
            old(self).wf(),
        ensures
            final(self).wf(),
            final(self).stream() == old(self).stream(),
            final(self).stream_pos() == old(self).stream_pos(),
            final(self).index@ == index_fold(old(self).index@, old(self).history()),
            old(self).index@ == Map::<Seq<u8>, u64>::empty() ==> final(self).index_synced(),
            match log_end_kind(old(self).stream()) {
                LogEnd::Clean => r == Ok::<(), KvError>(()),
                LogEnd::Truncated => r == Err::<(), KvError>(KvError::UnexpectedEnd),
                LogEnd::Corrupt => r == Err::<(), KvError>(KvError::DataCorruption),
            },
    {
        let ghost m0 = self.index@;
        let ghost h = self.history();
        let ghost log = self.f@;
        let previous_position: u64 = self.cursor;
        self.cursor = 0;
        let mut pos: usize = 0;
        let ghost mut done: Seq<Record> = Seq::empty();
        let res: Result<(), KvError>;
        proof {
            assert(h =~= done + parse_records(log, 0));
        }
        loop
            invariant
                self.f@ == log,
                h == log_records(log),
                self.index.wf(),
                pos <= log.len(),
                self.cursor <= log.len(),
                scan_stop(log, pos as int) == scan_stop(log, 0),
                h == done + parse_records(log, pos as int),
                self.index@ == index_fold(m0, done),
            ensures
                self.f@ == log,
                self.index.wf(),
                self.cursor <= log.len(),
                self.index@ == index_fold(m0, h),
                match end_kind_at(log, scan_stop(log, 0)) {
                    LogEnd::Clean => res == Ok::<(), KvError>(()),
                    LogEnd::Truncated => res == Err::<(), KvError>(KvError::UnexpectedEnd),
                    LogEnd::Corrupt => res == Err::<(), KvError>(KvError::DataCorruption),
                },
            decreases log.len() - pos,
        {
            if self.f.len() - pos < 12 {
                proof {
                    assert(!record_ok_at(log, pos as int));
                    assert(parse_records(log, pos as int) =~= Seq::<Record>::empty());
                    assert(h =~= done);
                    assert(scan_stop(log, pos as int) == pos as int);
                    assert(!header_in_bounds(log, pos as int));
                }
                res = Ok(());
                break;
            }
            match RiaKV::process_record(&self.f, pos as u64) {
                Ok((kv, next)) => {
                    let ghost rec = record_at(log, pos as int);
                    proof {
                        assert(record_ok_at(log, pos as int));
                        assert(parse_records(log, pos as int) == seq![rec] + parse_records(
                            log,
                            record_end(log, pos as int),
                        ));
                        assert(rec.key == kv.key@ && rec.value == kv.value@);
                        assert(next <= log.len());
                    }
                    self.cursor = next;
                    let op = if kv.value.len() > 0 {
                        IndexOp::Insert(kv, pos as u64)
                    } else {
                        IndexOp::Delete(kv, pos as u64)
                    };
                    let cont = self.apply_index_op(op);
                    proof {
                        lemma_index_fold_push(m0, done, rec);
                        done = done.push(rec);
                        assert(h =~= done + parse_records(log, record_end(log, pos as int)));
                        assert(self.index@ == index_fold(m0, done));
                    }
                    if !cont {
                        res = Ok(());
                        break;
                    }
                    pos = next as usize;
                },
                Err(e) => {
                    proof {
                        assert(!record_ok_at(log, pos as int));
                        assert(parse_records(log, pos as int) =~= Seq::<Record>::empty());
                        assert(h =~= done);
                        assert(scan_stop(log, pos as int) == pos as int);
                        assert(header_in_bounds(log, pos as int));
                    }
                    res = Err(e);
                    break;
                },
            }
        }
        self.cursor = previous_position;
        res
    }

    /// Scans the log from its start and returns the first record whose
    /// key matches — the oldest one, superseded or tombstoned history
    /// included — with the offset it begins at. The index is not
    /// consulted, and the cursor is restored on every exit path.
    pub fn find(&mut self, target: &[u8]) -> (r: Result<Option<(u64, Vec<u8>)>, KvError>)
        requires
            old(self).wf(),
        ensures
            final(self).wf(),
            final(self).stream() == old(self).stream(),
            final(self).index == old(self).index,
            final(self).stream_pos() == old(self).stream_pos(),
            match first_record_for(old(self).history(), target@) {
                Some(rec) => r matches Ok(Some((offset, value))) && offset as int == rec.off
                    && value@ == rec.value,
                None => match log_end_kind(old(self).stream()) {
                    LogEnd::Clean => r == Ok::<Option<(u64, Vec<u8>)>, KvError>(None),
                    LogEnd::Truncated => r == Err::<Option<(u64, Vec<u8>)>, KvError>(
                        KvError::UnexpectedEnd,
                    ),
                    LogEnd::Corrupt => r == Err::<Option<(u64, Vec<u8>)>, KvError>(
                        KvError::DataCorruption,
                    ),
                },
            },
    {
        let ghost h = self.history();
        let ghost log = self.f@;
        let ghost index0 = self.index;
        let previous_position: u64 = self.cursor;
        self.cursor = 0;
        let mut pos: usize = 0;
        let res: Result<Option<(u64, Vec<u8>)>, KvError>;
        loop
            invariant
                self.f@ == log,
                h == log_records(log),
                self.index == index0,
                pos <= log.len(),
                self.cursor <= log.len(),
                scan_stop(log, pos as int) == scan_stop(log, 0),
                first_record_for(h, target@) == first_record_for(
                    parse_records(log, pos as int),
                    target@,
                ),
            ensures
                self.f@ == log,
                self.index == index0,
                self.cursor <= log.len(),
                match first_record_for(h, target@) {
                    Some(rec) => res matches Ok(Some((offset, value))) && offset as int == rec.off
                        && value@ == rec.value,
                    None => match end_kind_at(log, scan_stop(log, 0)) {
                        LogEnd::Clean => res == Ok::<Option<(u64, Vec<u8>)>, KvError>(None),
                        LogEnd::Truncated => res == Err::<Option<(u64, Vec<u8>)>, KvError>(
                            KvError::UnexpectedEnd,
                        ),
                        LogEnd::Corrupt => res == Err::<Option<(u64, Vec<u8>)>, KvError>(
                            KvError::DataCorruption,
                        ),
                    },
                },
            decreases log.len() - pos,
        {
            if self.f.len() - pos < 12 {
                proof {
                    assert(!record_ok_at(log, pos as int));
                    assert(parse_records(log, pos as int) =~= Seq::<Record>::empty());
                    assert(first_record_for(Seq::<Record>::empty(), target@) is None);
                    assert(scan_stop(log, pos as int) == pos as int);
                    assert(!header_in_bounds(log, pos as int));
                }
                res = Ok(None);
                break;
            }
            match RiaKV::process_record(&self.f, pos as u64) {
                Ok((kv, next)) => {
                    let ghost rec = record_at(log, pos as int);
                    proof {
                        assert(record_ok_at(log, pos as int));
                        assert(parse_records(log, pos as int) == seq![rec] + parse_records(
                            log,
                            record_end(log, pos as int),
                        ));
                        assert(parse_records(log, pos as int)[0] == rec);
                        assert(rec.key == kv.key@ && rec.value == kv.value@);
                        assert(next <= log.len());
                    }
                    self.cursor = next;
                    if bytes_eq(kv.key.as_slice(), target) {
                        res = Ok(Some((pos as u64, kv.value)));
                        break;
                    }
                    proof {
                        let tail = parse_records(log, record_end(log, pos as int));
                        assert(parse_records(log, pos as int).drop_first() =~= tail);
                    }
                    pos = next as usize;
                },
                Err(e) => {
                    proof {
                        assert(!record_ok_at(log, pos as int));
                        assert(parse_records(log, pos as int) =~= Seq::<Record>::empty());
                        assert(first_record_for(Seq::<Record>::empty(), target@) is None);
                        assert(scan_stop(log, pos as int) == pos as int);
                        assert(header_in_bounds(log, pos as int));
                    }
                    res = Err(e);
                    break;
                },
            }
        }
        self.cursor = previous_position;
        res
    }

    /// Serializes the index into a snapshot blob that an embedding layer
    /// can write wherever it keeps the snapshot. The blob decodes back
    /// to exactly this index: `load_index` of the result restores it.
    pub fn persist_index(&self) -> (r: Vec<u8>)
        ensures
            r@ == snapshot_bytes(self.index.entry_views()),
            parse_snapshot(r@) == Some(self.index.entry_views()),
            self.index@ == assoc_map(self.index.entry_views()),
    {
        proof {
            lemma_index_view(&self.index);
        }
        self.index.to_snapshot_bytes()
    }

    /// Replaces the index with one decoded from a snapshot blob, with no
    /// scan of the log and no staleness check — the caller is
    /// responsible for knowing the snapshot is fresh. A blob that does
    /// not decode leaves the index unchanged.
    pub fn load_index(&mut self, bytes: &[u8]) -> (r: Result<(), KvError>)
        requires
            old(self).wf(),
        ensures
            final(self).wf(),
            final(self).stream() == old(self).stream(),
            final(self).stream_pos() == old(self).stream_pos(),
            match parse_snapshot(bytes@) {
                Some(entries) => r == Ok::<(), KvError>(()) && final(self).index@ == assoc_map(
                    entries,
                ),
                None => r == Err::<(), KvError>(KvError::SerializationFailure)
                    && final(self).index == old(self).index,
            },
    {
        match Index::index_from_snapshot(bytes) {
            Ok(idx) => {
                self.index = idx;
                Ok(())
            },
            Err(e) => Err(e),
        }
    }
}

} // verus!
