//! A log-structured, append-only key-value store over an in-memory byte
//! stream: every mutation is appended as an immutable checksummed record,
//! and an in-memory index maps each key to the offset of its latest
//! record. Reads go through the index to a stored offset; full-log scans
//! rebuild the index or search the history, and restore the stream's
//! cursor on every exit path.

mod checksum;
mod history;
mod index;
mod record;
mod snapshot;
mod store;
mod wire;

pub use checksum::crc32_of;
pub use history::{first_record_for, index_built, index_fold, index_step, last_record_for,
    lemma_append_other_key, lemma_first_record_stable, lemma_index_built_last,
    lemma_index_fold_push, lemma_last_record_in, lemma_last_write_wins, lemma_tombstone,
    live_value};
pub use index::{assoc_map, lemma_index_view, unique_keys, Index};
pub use record::{checksum_matches, end_kind_at, header_in_bounds, log_complete, log_end_kind,
    log_records, lemma_parse_append_record, lemma_parse_records_ok, lemma_record_bytes_ok,
    lemma_record_ok_extend, lemma_record_ok_local, parse_records, payload_in_bounds, record_at,
    record_bytes, record_end, record_ok_at, scan_stop, stored_checksum, stored_key_len,
    stored_payload, stored_value_len, KeyValuePair, KvError, LogEnd, Record};
pub use snapshot::{lemma_snapshot_round_trip, parse_snapshot, parse_snapshot_entries,
    snapshot_bytes, snapshot_entries_bytes, snapshot_entry_bytes};
pub use store::{IndexOp, RiaKV};
pub use wire::{bytes_eq, le32_at, le32_bytes, le32_value, le64_at, le64_bytes, le64_value};
