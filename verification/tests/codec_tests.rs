use libriakv::{IndexOp, KvError, RiaKV};

#[test]
fn apply_index_op_folds() {
    let mut store = RiaKV::open_from_in_memory_buffer(5000);
    let offset = store
        .insert_but_ignore_index(b"k", b"v")
        .expect("insert_but_ignore_index");
    // The raw append did not touch the index.
    assert_eq!(store.get(b"k").expect("get"), None);

    let (kv, _) = RiaKV::process_record(store.storage_bytes(), offset).expect("process_record");
    assert!(store.apply_index_op(IndexOp::Insert(kv, offset)));
    assert_eq!(store.get(b"k").expect("get"), Some(b"v".to_vec()));

    let (kv, _) = RiaKV::process_record(store.storage_bytes(), offset).expect("process_record");
    assert!(store.apply_index_op(IndexOp::Delete(kv, offset)));
    assert_eq!(store.get(b"k").expect("get"), None);

    assert!(store.apply_index_op(IndexOp::Nop));
    assert!(!store.apply_index_op(IndexOp::End));
}

#[test]
fn read_past_end_is_unexpected_end() {
    let mut store = RiaKV::open_from_in_memory_buffer(5000);
    store.insert(b"k", b"v").expect("insert");
    let end = store.seek_to_end();
    assert!(matches!(store.get_at(end), Err(KvError::UnexpectedEnd)));
    assert!(matches!(
        RiaKV::process_record(store.storage_bytes(), 9999),
        Err(KvError::UnexpectedEnd)
    ));
}

#[test]
fn record_round_trip() {
    let mut store = RiaKV::open_from_in_memory_buffer(5000);
    let offset = store
        .insert_but_ignore_index(b"alpha", b"some-value")
        .expect("insert_but_ignore_index");
    assert_eq!(offset, 0);
    let (kv, next) = RiaKV::process_record(store.storage_bytes(), 0).expect("process_record");
    assert_eq!(kv.key, b"alpha".to_vec());
    assert_eq!(kv.value, b"some-value".to_vec());
    assert_eq!(next, 12 + 5 + 10);
}

#[test]
fn record_round_trip_empty() {
    let mut store = RiaKV::open_from_in_memory_buffer(5000);
    store.insert_but_ignore_index(b"", b"").expect("insert_but_ignore_index");
    let (kv, next) = RiaKV::process_record(store.storage_bytes(), 0).expect("process_record");
    assert_eq!(kv.key, Vec::<u8>::new());
    assert_eq!(kv.value, Vec::<u8>::new());
    assert_eq!(next, 12);
}

#[test]
fn checksum_is_ieee_crc32() {
    // The standard CRC-32 check value: the checksum of "123456789" is
    // 0xCBF43926. A record holding that payload, with the checksum
    // written by hand, must decode.
    let mut bytes: Vec<u8> = vec![0x26, 0x39, 0xF4, 0xCB];
    bytes.extend_from_slice(&[4, 0, 0, 0]); // key length
    bytes.extend_from_slice(&[5, 0, 0, 0]); // value length
    bytes.extend_from_slice(b"123456789");
    let (kv, _) = RiaKV::process_record(&bytes, 0).expect("process_record");
    assert_eq!(kv.key, b"1234".to_vec());
    assert_eq!(kv.value, b"56789".to_vec());

    // The same record with any other stored checksum must not.
    bytes[0] = bytes[0].wrapping_add(1);
    assert_eq!(RiaKV::process_record(&bytes, 0), Err(KvError::DataCorruption));
}

#[test]
fn corruption_detected_for_every_payload_bit() {
    let mut store = RiaKV::open_from_in_memory_buffer(5000);
    store.insert(b"aa", b"bbb").expect("insert"); // offset 0, 17 bytes
    store.insert(b"cc", b"dd").expect("insert"); // offset 17, 16 bytes

    let pristine = store.storage_bytes().clone();
    // Flip every bit of the first record's payload, one at a time.
    for byte_pos in 12..17 {
        for bit in 0..8 {
            let mut corrupted = pristine.clone();
            corrupted[byte_pos] ^= 1u8 << bit;
            assert_eq!(
                RiaKV::process_record(&corrupted, 0),
                Err(KvError::DataCorruption)
            );
            // The untouched second record still decodes.
            let (kv, _) = RiaKV::process_record(&corrupted, 17).expect("process_record");
            assert_eq!(kv.key, b"cc".to_vec());
            assert_eq!(kv.value, b"dd".to_vec());
            // A rebuild scan surfaces the corruption as an error.
            let mut reopened = RiaKV::open_from_buffer(corrupted);
            assert_eq!(reopened.load(), Err(KvError::DataCorruption));
        }
    }
}

#[test]
fn truncated_payload_is_an_error() {
    let mut store = RiaKV::open_from_in_memory_buffer(5000);
    store.insert(b"aa", b"bbb").expect("insert");
    let full = store.storage_bytes().clone();

    // A full header whose declared payload runs past the end.
    let mut truncated = full.clone();
    truncated.truncate(14);
    assert_eq!(RiaKV::process_record(&truncated, 0), Err(KvError::UnexpectedEnd));
    let mut reopened = RiaKV::open_from_buffer(truncated);
    assert_eq!(reopened.load(), Err(KvError::UnexpectedEnd));
    assert_eq!(reopened.find(b"aa"), Err(KvError::UnexpectedEnd));

    // Fewer than 12 bytes at the scan position is the normal end of the
    // log, not an error.
    let mut mid_header = full.clone();
    mid_header.truncate(5);
    let mut reopened = RiaKV::open_from_buffer(mid_header);
    assert_eq!(reopened.load(), Ok(()));
    assert_eq!(reopened.get(b"aa").expect("get"), None);
    assert_eq!(reopened.find(b"aa").expect("find"), None);
}

#[test]
fn snapshot_round_trip() {
    let mut store = RiaKV::open_from_in_memory_buffer(5000);
    store.insert(b"alpha", b"1").expect("insert");
    store.insert(b"beta", b"2").expect("insert");
    store.update(b"alpha", b"11").expect("update");
    store.delete(b"beta").expect("delete");

    let blob = store.persist_index();

    // A second store over the same log, with no scan: loading the
    // snapshot restores the same index exactly.
    let mut restored = RiaKV::open_from_buffer(store.storage_bytes().clone());
    restored.load_index(&blob).expect("load_index");
    assert_eq!(restored.persist_index(), blob);
    assert_eq!(restored.get(b"alpha").expect("get"), Some(b"11".to_vec()));
    assert_eq!(restored.get(b"beta").expect("get"), None);
}

#[test]
fn snapshot_rejects_garbage() {
    let mut store = RiaKV::open_from_in_memory_buffer(5000);
    store.insert(b"k", b"v").expect("insert");

    // Too short to hold a count.
    assert_eq!(store.load_index(&[1, 2, 3]), Err(KvError::SerializationFailure));
    // A count that promises more entries than there are bytes.
    let huge_count = [9, 0, 0, 0, 0, 0, 0, 0];
    assert_eq!(store.load_index(&huge_count), Err(KvError::SerializationFailure));
    // Trailing bytes after the last entry.
    let mut blob = store.persist_index();
    blob.push(0);
    assert_eq!(store.load_index(&blob), Err(KvError::SerializationFailure));
    // The failed loads left the index as it was.
    assert_eq!(store.get(b"k").expect("get"), Some(b"v".to_vec()));
}
