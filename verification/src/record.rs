//! The on-disk record layout and the meaning of a whole log.
//!
//! A record is stored as `checksum (u32) | key_length (u32) |
//! value_length (u32) | key | value`, all integers little-endian. A record
//! whose value is empty is a tombstone. A log is a plain concatenation of
//! records starting at offset 0; scanning parses records in order until
//! the bytes run out or fail to form a record.

use vstd::prelude::*;

use crate::checksum::crc32_of;
use crate::wire::{le32_at, le32_bytes};

verus! {

/// A key-value pair, as stored in and decoded from the log.
#[derive(Debug, PartialEq, Eq)]
pub struct KeyValuePair {
    pub key: Vec<u8>,
    pub value: Vec<u8>,
}

/// The error kinds the store reports.
///
/// Stream input/output failures cannot arise here: the store works over an
/// in-memory byte stream, and an embedding layer that keeps the stream in
/// a file reports its own input/output errors before the bytes reach the
/// store.
#[derive(Debug, Clone, Copy, PartialEq, Eq)]
pub enum KvError {
    /// Fewer bytes were available than a record header or payload declares.
    UnexpectedEnd,
    /// A record's stored checksum does not match its payload.
    DataCorruption,
    /// An index snapshot could not be decoded.
    SerializationFailure,
}

/// A parsed record together with the offset where it begins.
pub struct Record {
    pub off: int,
    pub key: Seq<u8>,
    pub value: Seq<u8>,
}

/// How a scan of the log ends once no further record can be parsed.
pub enum LogEnd {
    /// Fewer than 12 bytes remain: the normal end of the log.
    Clean,
    /// A full header remains but declares more payload bytes than exist.
    Truncated,
    /// A full record is present but its checksum does not match.
    Corrupt,
}

/// The encoded form of one record.
pub open spec fn record_bytes(key: Seq<u8>, value: Seq<u8>) -> Seq<u8> {
    le32_bytes(crc32_of(key + value)) + le32_bytes(key.len() as u32)
        + le32_bytes(value.len() as u32) + key + value
}

/// The checksum field of the header at `pos`.
pub open spec fn stored_checksum(log: Seq<u8>, pos: int) -> u32 {
    le32_at(log, pos)
}

/// The key-length field of the header at `pos`.
pub open spec fn stored_key_len(log: Seq<u8>, pos: int) -> u32 {
    le32_at(log, pos + 4)
}

/// The value-length field of the header at `pos`.
pub open spec fn stored_value_len(log: Seq<u8>, pos: int) -> u32 {
    le32_at(log, pos + 8)
}

/// A full 12-byte header lies within the log at `pos`.
pub open spec fn header_in_bounds(log: Seq<u8>, pos: int) -> bool {
    0 <= pos && pos + 12 <= log.len()
}

/// The header at `pos` and the payload it declares lie within the log.
pub open spec fn payload_in_bounds(log: Seq<u8>, pos: int) -> bool {
    header_in_bounds(log, pos)
        && pos + 12 + stored_key_len(log, pos) + stored_value_len(log, pos) <= log.len()
}

/// The first byte position after the record at `pos`.
pub open spec fn record_end(log: Seq<u8>, pos: int) -> int {
    pos + 12 + stored_key_len(log, pos) + stored_value_len(log, pos)
}

/// The payload (key followed by value) of the record at `pos`.
pub open spec fn stored_payload(log: Seq<u8>, pos: int) -> Seq<u8> {
    log.subrange(pos + 12, record_end(log, pos))
}

/// The stored checksum at `pos` matches the payload found there.
pub open spec fn checksum_matches(log: Seq<u8>, pos: int) -> bool {
    crc32_of(stored_payload(log, pos)) == stored_checksum(log, pos)
}

/// A well-formed record lies at `pos`: in bounds and checksummed.
pub open spec fn record_ok_at(log: Seq<u8>, pos: int) -> bool {
    payload_in_bounds(log, pos) && checksum_matches(log, pos)
}

/// The record parsed at `pos`, meaningful when `record_ok_at` holds.
pub open spec fn record_at(log: Seq<u8>, pos: int) -> Record {
    Record {
        off: pos,
        key: log.subrange(pos + 12, pos + 12 + stored_key_len(log, pos)),
        value: log.subrange(pos + 12 + stored_key_len(log, pos), record_end(log, pos)),
    }
}

/// The position where parsing from `pos` stops: the first record boundary
/// at which no further well-formed record begins.
pub open spec fn scan_stop(log: Seq<u8>, pos: int) -> int
    decreases log.len() - pos,
{
    if record_ok_at(log, pos) {
        scan_stop(log, record_end(log, pos))
    } else {
        pos
    }
}

/// The records parsed from `pos` up to the stop position.
pub open spec fn parse_records(log: Seq<u8>, pos: int) -> Seq<Record>
    decreases log.len() - pos,
{
    if record_ok_at(log, pos) {
        seq![record_at(log, pos)] + parse_records(log, record_end(log, pos))
    } else {
        Seq::empty()
    }
}

/// Why parsing stops at `pos`, meaningful when no record begins there.
pub open spec fn end_kind_at(log: Seq<u8>, pos: int) -> LogEnd {
    if !header_in_bounds(log, pos) {
        LogEnd::Clean
    } else if !payload_in_bounds(log, pos) {
        LogEnd::Truncated
    } else {
        LogEnd::Corrupt
    }
}

/// All records of the log, parsed from its start.
pub open spec fn log_records(log: Seq<u8>) -> Seq<Record> {
    parse_records(log, 0)
}

/// How a full scan of the log ends.
pub open spec fn log_end_kind(log: Seq<u8>) -> LogEnd {
    end_kind_at(log, scan_stop(log, 0))
}

/// Parsing consumes the log exactly: records cover every byte.
pub open spec fn log_complete(log: Seq<u8>) -> bool {
    scan_stop(log, 0) == log.len()
}

/// Appending an encoded record after `prefix` yields a well-formed record
/// at offset `prefix.len()` that decodes back to the same key and value
/// and ends exactly at the end of the extended log.
pub proof fn lemma_record_bytes_ok(prefix: Seq<u8>, key: Seq<u8>, value: Seq<u8>)
    requires
        key.len() <= u32::MAX,
        value.len() <= u32::MAX,
    ensures
        ({
            let log = prefix + record_bytes(key, value);
            let pos = prefix.len() as int;
            record_ok_at(log, pos) && record_at(log, pos) == (Record {
                off: pos,
                key: key,
                value: value,
            }) && record_end(log, pos) == log.len()
        }),
{
    let log = prefix + record_bytes(key, value);
    let pos = prefix.len() as int;
    let rb = record_bytes(key, value);
    let c = crc32_of(key + value);
    let kl = key.len() as u32;
    let vl = value.len() as u32;
    assert(rb.len() == 12 + key.len() + value.len());
    assert(forall|i: int| 0 <= i < rb.len() ==> log[pos + i] == rb[i]);
    assert(forall|i: int| 0 <= i < 4 ==> rb[i] == le32_bytes(c)[i]);
    assert(forall|i: int| 0 <= i < 4 ==> rb[4 + i] == le32_bytes(kl)[i]);
    assert(forall|i: int| 0 <= i < 4 ==> rb[8 + i] == le32_bytes(vl)[i]);
    crate::wire::lemma_le32_round_trip(c);
    crate::wire::lemma_le32_round_trip(kl);
    crate::wire::lemma_le32_round_trip(vl);
    assert(stored_checksum(log, pos) == c);
    assert(stored_key_len(log, pos) == kl);
    assert(stored_value_len(log, pos) == vl);
    assert(record_end(log, pos) == log.len());
    assert(payload_in_bounds(log, pos));
    assert(stored_payload(log, pos) =~= key + value);
    assert(checksum_matches(log, pos));
    assert(record_at(log, pos).key =~= key);
    assert(record_at(log, pos).value =~= value);
}

/// A record already well-formed in `log` is unchanged when more bytes are
/// appended after `log`.
pub proof fn lemma_record_ok_extend(log: Seq<u8>, ext: Seq<u8>, pos: int)
    requires
        record_ok_at(log, pos),
    ensures
        record_ok_at(log + ext, pos),
        record_at(log + ext, pos) == record_at(log, pos),
        record_end(log + ext, pos) == record_end(log, pos),
{
    let log2 = log + ext;
    assert(forall|i: int| 0 <= i < log.len() ==> log2[i] == log[i]);
    assert(stored_checksum(log2, pos) == stored_checksum(log, pos));
    assert(stored_key_len(log2, pos) == stored_key_len(log, pos));
    assert(stored_value_len(log2, pos) == stored_value_len(log, pos));
    assert(stored_payload(log2, pos) =~= stored_payload(log, pos));
    assert(record_at(log2, pos).key =~= record_at(log, pos).key);
    assert(record_at(log2, pos).value =~= record_at(log, pos).value);
}

/// A record's decoding depends only on its own bytes: any log that
/// agrees with `log1` on the record's byte range — however the bytes
/// outside it were changed — holds the same well-formed record. A
/// corrupted byte elsewhere leaves this record untouched.
pub proof fn lemma_record_ok_local(log1: Seq<u8>, log2: Seq<u8>, pos: int)
    requires
        record_ok_at(log1, pos),
        log2.len() >= record_end(log1, pos),
        forall|i: int| pos <= i < record_end(log1, pos) ==> log1[i] == log2[i],
    ensures
        record_ok_at(log2, pos),
        record_at(log2, pos) == record_at(log1, pos),
        record_end(log2, pos) == record_end(log1, pos),
{
    assert(log1[pos] == log2[pos]);
    assert(log1[pos + 1] == log2[pos + 1]);
    assert(log1[pos + 2] == log2[pos + 2]);
    assert(log1[pos + 3] == log2[pos + 3]);
    assert(log1[pos + 4] == log2[pos + 4]);
    assert(log1[pos + 5] == log2[pos + 5]);
    assert(log1[pos + 6] == log2[pos + 6]);
    assert(log1[pos + 7] == log2[pos + 7]);
    assert(log1[pos + 8] == log2[pos + 8]);
    assert(log1[pos + 9] == log2[pos + 9]);
    assert(log1[pos + 10] == log2[pos + 10]);
    assert(log1[pos + 11] == log2[pos + 11]);
    assert(stored_checksum(log2, pos) == stored_checksum(log1, pos));
    assert(stored_key_len(log2, pos) == stored_key_len(log1, pos));
    assert(stored_value_len(log2, pos) == stored_value_len(log1, pos));
    assert(stored_payload(log2, pos) =~= stored_payload(log1, pos));
    assert(record_at(log2, pos).key =~= record_at(log1, pos).key);
    assert(record_at(log2, pos).value =~= record_at(log1, pos).value);
}

/// Appending one encoded record to a log whose tail from `pos` parses
/// completely extends the parse by exactly that record.
pub proof fn lemma_parse_append_record(log: Seq<u8>, key: Seq<u8>, value: Seq<u8>, pos: int)
    requires
        0 <= pos <= log.len(),
        key.len() <= u32::MAX,
        value.len() <= u32::MAX,
        scan_stop(log, pos) == log.len(),
    ensures
        ({
            let log2 = log + record_bytes(key, value);
            let rec = Record { off: log.len() as int, key: key, value: value };
            parse_records(log2, pos) == parse_records(log, pos).push(rec)
                && scan_stop(log2, pos) == log2.len()
        }),
    decreases log.len() - pos,
{
    let log2 = log + record_bytes(key, value);
    let rec = Record { off: log.len() as int, key: key, value: value };
    if record_ok_at(log, pos) {
        lemma_record_ok_extend(log, record_bytes(key, value), pos);
        let next = record_end(log, pos);
        lemma_parse_append_record(log, key, value, next);
        assert(parse_records(log2, pos) == seq![record_at(log2, pos)] + parse_records(
            log2,
            next,
        ));
        assert(parse_records(log2, pos) =~= parse_records(log, pos).push(rec));
    } else {
        assert(scan_stop(log, pos) == pos);
        assert(pos == log.len());
        lemma_record_bytes_ok(log, key, value);
        assert(record_ok_at(log2, pos));
        assert(record_end(log2, pos) == log2.len());
        assert(!record_ok_at(log2, log2.len() as int));
        assert(parse_records(log2, log2.len() as int) =~= Seq::<Record>::empty());
        assert(scan_stop(log2, log2.len() as int) == log2.len());
        assert(scan_stop(log2, pos) == log2.len());
        assert(!record_ok_at(log, pos));
        assert(parse_records(log, pos) =~= Seq::<Record>::empty());
        assert(parse_records(log2, pos) =~= seq![record_at(log2, pos)]);
        assert(record_at(log2, pos) == rec);
        assert(parse_records(log2, pos) =~= parse_records(log, pos).push(rec));
    }
}

/// Every parsed record records its own offset, and a well-formed record
/// that decodes to it lies at that offset.
pub proof fn lemma_parse_records_ok(log: Seq<u8>, pos: int, i: int)
    requires
        0 <= i < parse_records(log, pos).len(),
    ensures
        ({
            let r = parse_records(log, pos)[i];
            record_ok_at(log, r.off) && record_at(log, r.off) == r && record_end(log, r.off)
                == r.off + 12 + r.key.len() + r.value.len()
        }),
    decreases log.len() - pos,
{
    if record_ok_at(log, pos) {
        let r0 = record_at(log, pos);
        if i == 0 {
            assert(parse_records(log, pos)[0] == r0);
            assert(r0.off == pos);
            assert(r0.key.len() == stored_key_len(log, pos));
            assert(r0.value.len() == stored_value_len(log, pos));
        } else {
            lemma_parse_records_ok(log, record_end(log, pos), i - 1);
            assert(parse_records(log, pos)[i] == parse_records(log, record_end(log, pos))[i - 1]);
        }
    }
}

} // verus!
