use libriakv::RiaKV;

#[test]
fn insert() {
    let mut store = RiaKV::open_from_in_memory_buffer(5000);
    store.insert(b"key", b"value").expect("insert");
}

#[test]
fn insert_get() {
    let mut store = RiaKV::open_from_in_memory_buffer(5000);

    let kv_pairs = [
        (b"12345", b"1qwerrtyui"),
        (b"asdef", b"1zxcvnnnqq"),
        (b"1asdf", b"qwertynnii"),
        (b"1zxcv", b"1lllllpppq"),
        (b"qwert", b"1zxcqqqqee"),
        (b"abjkl", b"1aassddwww"),
        (b"nmkli", b"1qaazzssqq"),
        (b"asdff", b"1ppppkkkkq"),
    ];

    for kv in kv_pairs {
        store.insert(kv.0, kv.1).expect("insert");
    }

    for kv in kv_pairs {
        let value = store.get(kv.0).expect("get").unwrap();
        assert_eq!(value, kv.1.to_vec());
    }
}

#[test]
fn update_get() {
    let mut store = RiaKV::open_from_in_memory_buffer(5000);

    let kv_pairs = [
        (b"12345", b"1qwerrtyui_1"),
        (b"asdef", b"1zxcvnnnqq_1"),
        (b"1asdf", b"qwertynnii_1"),
        (b"1zxcv", b"1lllllpppq_1"),
        (b"qwert", b"1zxcqqqqee_1"),
        (b"abjkl", b"1aassddwww_1"),
        (b"nmkli", b"1qaazzssqq_1"),
        (b"asdff", b"1ppppkkkkq_1"),
        (b"asdef", b"1zxcvnnnqq_2"),
        (b"1asdf", b"qwertynnii_2"),
        (b"1zxcv", b"1lllllpppq_2"),
        (b"abjkl", b"1aassddwww_2"),
        (b"asdef", b"1zxcvnnnqq_3"),
        (b"1zxcv", b"1lllllpppq_3"),
        (b"asdff", b"1ppppkkkkq_3"),
        (b"nmkli", b"1qaazzssqq_4"),
        (b"asdef", b"1zxcvnnnqq_4"),
        (b"asdef", b"1zxcvnnnqq_4"),
    ];

    let final_kv_pairs = [
        (b"12345", b"1qwerrtyui_1"),
        (b"asdef", b"1zxcvnnnqq_4"),
        (b"1asdf", b"qwertynnii_2"),
        (b"1zxcv", b"1lllllpppq_3"),
        (b"qwert", b"1zxcqqqqee_1"),
        (b"abjkl", b"1aassddwww_2"),
        (b"nmkli", b"1qaazzssqq_4"),
        (b"asdff", b"1ppppkkkkq_3"),
    ];

    for kv in kv_pairs {
        store.update(kv.0, kv.1).expect("update");
    }

    for kv in final_kv_pairs {
        let value = store.get(kv.0).expect("get").unwrap();
        assert_eq!(value, kv.1.to_vec());
    }
}

#[test]
fn delete_and_find() {
    let mut store = RiaKV::open_from_in_memory_buffer(5000);

    let kv_pairs = [
        (b"12345", b"1qwerrtyui"),
        (b"asdef", b"1zxcvnnnqq"),
        (b"1asdf", b"qwertynnii"),
        (b"1zxcv", b"1lllllpppq"),
        (b"qwert", b"1zxcqqqqee"),
        (b"abjkl", b"1aassddwww"),
        (b"nmkli", b"1qaazzssqq"),
        (b"asdff", b"1ppppkkkkq"),
    ];

    for kv in kv_pairs {
        store.insert(kv.0, kv.1).expect("insert");
    }

    let kv_pairs_to_delete = [
        (b"abjkl", b"1aassddwww"),
        (b"nmkli", b"1qaazzssqq"),
        (b"asdff", b"1ppppkkkkq"),
    ];

    let kv_pairs_untouched = [
        (b"12345", b"1qwerrtyui"),
        (b"asdef", b"1zxcvnnnqq"),
        (b"1asdf", b"qwertynnii"),
        (b"1zxcv", b"1lllllpppq"),
        (b"qwert", b"1zxcqqqqee"),
    ];

    for kv in kv_pairs_to_delete {
        store.delete(kv.0).expect("delete");
    }

    for kv in kv_pairs_untouched {
        let value = store.get(kv.0).expect("get").unwrap();
        assert_eq!(value, kv.1.to_vec());
    }

    for kv in kv_pairs_to_delete {
        let value = store.get(kv.0).expect("get");
        assert_eq!(value, None);
    }

    for kv in kv_pairs {
        store.find(kv.0).expect("find").unwrap();
    }
}

#[test]
fn last_write_wins() {
    let mut store = RiaKV::open_from_in_memory_buffer(5000);
    store.insert(b"counter", b"one").expect("insert");
    store.insert(b"other", b"x").expect("insert");
    store.insert(b"counter", b"two").expect("insert");
    store.insert(b"counter", b"three").expect("insert");
    assert_eq!(store.get(b"counter").expect("get"), Some(b"three".to_vec()));
    assert_eq!(store.get(b"other").expect("get"), Some(b"x".to_vec()));
}

#[test]
fn tombstone_keeps_history() {
    let mut store = RiaKV::open_from_in_memory_buffer(5000);
    store.insert(b"k", b"v").expect("insert");
    store.delete(b"k").expect("delete");
    assert_eq!(store.get(b"k").expect("get"), None);
    // The oldest record is still in the log, at its original offset 0.
    let found = store.find(b"k").expect("find");
    assert_eq!(found, Some((0, b"v".to_vec())));
}

#[test]
fn empty_key_and_empty_value() {
    let mut store = RiaKV::open_from_in_memory_buffer(5000);
    store.insert(b"", b"empty-key-value").expect("insert");
    assert_eq!(store.get(b"").expect("get"), Some(b"empty-key-value".to_vec()));
    // An empty value is a tombstone: the key reads as absent.
    store.insert(b"gone", b"").expect("insert");
    assert_eq!(store.get(b"gone").expect("get"), None);
    assert_eq!(store.find(b"gone").expect("find"), Some((27, vec![])));
}

#[test]
fn index_transparency() {
    let mut store = RiaKV::open_from_in_memory_buffer(5000);
    store.insert(b"alpha", b"1").expect("insert");
    store.insert(b"beta", b"2").expect("insert");
    store.insert(b"gamma", b"3").expect("insert");
    store.update(b"beta", b"22").expect("update");
    store.delete(b"gamma").expect("delete");

    // Rebuild the index from a fresh scan of the same log.
    let mut rebuilt = RiaKV::open_from_buffer(store.storage_bytes().clone());
    rebuilt.load().expect("load");

    // Same key set, same offsets: the snapshots are byte-identical, and
    // every lookup agrees.
    assert_eq!(store.persist_index(), rebuilt.persist_index());
    for key in [b"alpha".as_slice(), b"beta".as_slice(), b"gamma".as_slice()] {
        assert_eq!(store.get(key).expect("get"), rebuilt.get(key).expect("get"));
    }
    assert_eq!(rebuilt.get(b"beta").expect("get"), Some(b"22".to_vec()));
    assert_eq!(rebuilt.get(b"gamma").expect("get"), None);
}

#[test]
fn cursor_restoration() {
    let mut store = RiaKV::open_from_in_memory_buffer(5000);
    store.insert(b"one", b"111").expect("insert");
    store.insert(b"two", b"222").expect("insert");
    store.insert(b"three", b"333").expect("insert");

    // Position the cursor mid-stream with a positioned read.
    store.get_at(18).expect("get_at");
    let before = store.stream_position();

    // A scan stopped early by a match restores the cursor.
    store.find(b"one").expect("find").unwrap();
    assert_eq!(store.stream_position(), before);

    // A scan that runs to the end of the log restores the cursor.
    store.find(b"missing").expect("find");
    assert_eq!(store.stream_position(), before);

    // A full rebuild restores the cursor too.
    store.load().expect("load");
    assert_eq!(store.stream_position(), before);

    let end = store.seek_to_end();
    assert_eq!(end, store.storage_bytes().len() as u64);
}

#[test]
fn eight_keys_update_delete_find() {
    let mut store = RiaKV::open_from_in_memory_buffer(5000);

    let kv_pairs = [
        (b"12345", b"1qwerrtyui"),
        (b"asdef", b"1zxcvnnnqq"),
        (b"1asdf", b"qwertynnii"),
        (b"1zxcv", b"1lllllpppq"),
        (b"qwert", b"1zxcqqqqee"),
        (b"abjkl", b"1aassddwww"),
        (b"nmkli", b"1qaazzssqq"),
        (b"asdff", b"1ppppkkkkq"),
    ];

    for kv in kv_pairs {
        store.insert(kv.0, kv.1).expect("insert");
    }
    for kv in kv_pairs {
        assert_eq!(store.get(kv.0).expect("get"), Some(kv.1.to_vec()));
    }

    store.update(b"asdef", b"1zxcvnnnqq_2").expect("update");
    store.update(b"asdef", b"1zxcvnnnqq_3").expect("update");
    store.update(b"asdef", b"1zxcvnnnqq_4").expect("update");
    assert_eq!(store.get(b"asdef").expect("get"), Some(b"1zxcvnnnqq_4".to_vec()));

    store.delete(b"asdef").expect("delete");
    assert_eq!(store.get(b"asdef").expect("get"), None);

    // Each of the first eight records is 12 + 5 + 10 = 27 bytes, so the
    // original "asdef" record sits at offset 27.
    let found = store.find(b"asdef").expect("find");
    assert_eq!(found, Some((27, b"1zxcvnnnqq".to_vec())));
}
