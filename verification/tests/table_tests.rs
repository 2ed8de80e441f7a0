use khimeradb::table::{SSTable, NamedFile};

const SEGMENT_SIZE_LIMIT: usize = 1024;

fn empty_table() -> SSTable {
    SSTable::try_new(Vec::new(), SEGMENT_SIZE_LIMIT).unwrap()
}

fn filler() -> Vec<u8> {
    vec![0u8; SEGMENT_SIZE_LIMIT]
}

fn named(name: &str, bytes: Vec<u8>) -> NamedFile {
    NamedFile { name: name.as_bytes().to_vec(), bytes }
}

fn files_of(table: &SSTable) -> Vec<NamedFile> {
    let mut out = Vec::new();
    for i in 0..table.file_count() {
        let f = table.file_at(i);
        out.push(named(&format!("{}.sst", f.serial), f.bytes.clone()));
    }
    out
}

#[test]
fn test_insert_and_get() {
    let mut table = empty_table();
    table.insert("key1", b"value1").unwrap();
    assert_eq!(&*table.get("key1").unwrap(), b"value1");
}

#[test]
fn test_overwrite_value() {
    let mut table = empty_table();
    table.insert("key1", b"value1").unwrap();
    table.insert("key1", b"value2").unwrap();
    assert_eq!(&*table.get("key1").unwrap(), b"value2");
}

#[test]
fn test_get_non_existent() {
    let table = empty_table();
    assert!(table.get("missing").is_none());
}

#[test]
fn test_empty_value() {
    let mut table = empty_table();
    table.insert("empty", b"").unwrap();
    assert_eq!(&*table.get("empty").unwrap(), b"");
}

#[test]
fn test_multiple_entries() {
    let mut table = empty_table();
    let entries = vec![("key1", b"value1"), ("key2", b"value2"), ("key3", b"value3")];

    for (k, v) in &entries {
        table.insert(k, *v).unwrap();
    }

    for (k, v) in &entries {
        assert_eq!(&*table.get(k).unwrap(), *v);
    }
}

#[test]
fn test_data_size_tracking() {
    let mut table = empty_table();
    assert_eq!(table.segment_at(0).size(), 0);

    table.insert("key1", b"value1").unwrap();
    assert_eq!(table.segment_at(0).size(), 4 + 6); // "key1" + "value1" lengths

    table.insert("key1", b"new_value").unwrap();
    assert_eq!(table.segment_at(0).size(), 4 + 9); // "key1" + "new_value" lengths

    table.insert("key2", b"value2").unwrap();
    assert_eq!(table.segment_at(0).size(), (4 + 9) + (4 + 6)); // ("key1" + "new_value") + ("key2" + "value2") lengths
}

#[test]
fn test_delete() {
    let mut table = empty_table();
    table.insert("key1", b"value1").unwrap();
    assert_eq!(&*table.get("key1").unwrap(), b"value1");

    table.delete("key1");
    assert!(table.get("key1").is_none());
}

#[test]
fn test_delete_and_reinsert() {
    let mut table = empty_table();
    table.insert("key1", b"value1").unwrap();
    table.delete("key1");
    table.insert("key1", b"value2").unwrap();
    assert_eq!(&*table.get("key1").unwrap(), b"value2");
}

#[test]
fn test_segment_chaining() {
    let mut table = empty_table();

    // Fill first segment
    table.insert("key1", &filler()[..SEGMENT_SIZE_LIMIT / 2]).unwrap();
    table.insert("key2", &filler()[..SEGMENT_SIZE_LIMIT / 2]).unwrap();

    // This should create a new segment
    table.insert("key3", b"value3").unwrap();

    assert_eq!(table.segment_count(), 2);
    assert_eq!(&*table.get("key3").unwrap(), b"value3");
}

#[test]
fn test_segment_value_shadowing() {
    let mut table = empty_table();

    table.insert("key1", b"value1").unwrap();
    table.insert("filler", &filler()).unwrap(); // Force new segment
    table.insert("key1", b"value2").unwrap();

    assert_eq!(&*table.get("key1").unwrap(), b"value2");
}

#[test]
fn test_delete_in_new_segment() {
    let mut table = empty_table();

    table.insert("key1", b"value1").unwrap();
    table.insert("filler", &filler()).unwrap(); // Force new segment
    table.delete("key1");

    assert!(table.get("key1").is_none());
}

#[test]
fn test_compact() {
    let mut table = empty_table();

    table.insert("key1", b"value1").unwrap();
    table.insert("filler", &filler()).unwrap();

    table.insert("key1", b"value2").unwrap();
    table.insert("key2", b"value3").unwrap();

    assert_eq!(table.segment_count(), 2);
    table.compact();

    assert_eq!(&*table.get("key1").unwrap(), b"value2");
    assert_eq!(&*table.get("key2").unwrap(), b"value3");
    assert!(table.segment_count() >= 1);
}

#[test]
fn test_compact_with_deletions() {
    let mut table = empty_table();

    table.insert("key1", b"value1").unwrap();
    table.insert("key2", b"value2").unwrap();
    table.insert("filler", &filler()).unwrap();

    table.delete("key1");
    assert!(table.get("key1").is_none());
    table.compact();

    assert!(table.get("key1").is_none());
    assert_eq!(&*table.get("key2").unwrap(), b"value2");
}

#[test]
fn test_write_read_table() {
    let mut table = empty_table();
    table.insert("key1", b"value1").unwrap();
    table.insert("key2", b"value2").unwrap();
    table.insert("filler", &filler()).unwrap();
    table.insert("key3", b"value3").unwrap();
    table.delete("key2");

    table.write().unwrap();

    // Every sealed segment is persisted under its serial, in order.
    assert_eq!(table.file_count(), table.segment_count() - 1);
    for i in 0..table.file_count() {
        assert_eq!(table.file_at(i).serial, table.segment_at(i).serial());
    }

    // Read table back
    let read_table = SSTable::try_new(files_of(&table), SEGMENT_SIZE_LIMIT).unwrap();

    // Verify contents: the sealed segments plus a fresh open one.
    assert_eq!(read_table.segment_count(), table.segment_count());
    assert_eq!(&*read_table.get("key1").unwrap(), b"value1");
}

#[test]
fn test_write_read_empty_table() {
    let mut table = empty_table();

    table.write().unwrap();
    assert_eq!(table.file_count(), 0);
    let read_table = SSTable::try_new(files_of(&table), SEGMENT_SIZE_LIMIT).unwrap();

    assert_eq!(read_table.segment_count(), 1);
}

#[test]
fn test_read_corrupted_file() {
    // A segment file holding invalid data is rejected on recovery.
    let result = SSTable::try_new(
        vec![named("0.sst", vec![0xFF, 0xFF, 0xFF])],
        SEGMENT_SIZE_LIMIT,
    );
    assert!(result.is_err());
}

#[test]
fn test_write_idempotency() {
    let mut table = empty_table();
    table.insert("key1", b"value1").unwrap();
    table.insert("filler", &filler()).unwrap();

    // Write twice
    table.write().unwrap();
    table.write().unwrap();

    // Verify only one file exists
    assert_eq!(table.file_count(), 1);
}

#[test]
fn test_segment_overflow_writes_file() {
    let mut table = empty_table();

    // No files initially
    assert_eq!(table.file_count(), 0);

    // Fill first segment
    table.insert("key1", &filler()).unwrap();

    // Should create a new segment and write the first one
    table.insert("key2", b"value2").unwrap();

    // Verify the file was written under the sealed segment's serial
    assert_eq!(table.file_count(), 1);
    assert_eq!(table.file_at(0).serial, table.segment_at(0).serial());

    // Verify the file contains the first segment's data
    let read_table = SSTable::try_new(files_of(&table), SEGMENT_SIZE_LIMIT).unwrap();
    assert_eq!(read_table.segment_count(), 2);
    assert!(read_table.get("key1").is_some());
}

#[test]
fn test_bad_file_extension_rejected() {
    let r = SSTable::try_new(vec![named("1.txt", Vec::new())], SEGMENT_SIZE_LIMIT);
    assert_eq!(r.err(), Some(khimeradb::StorageError::InvalidInput));
}

#[test]
fn test_bad_file_stem_rejected() {
    let r = SSTable::try_new(vec![named("a.b.sst", Vec::new())], SEGMENT_SIZE_LIMIT);
    assert_eq!(r.err(), Some(khimeradb::StorageError::InvalidInput));
    let r = SSTable::try_new(vec![named(".sst", Vec::new())], SEGMENT_SIZE_LIMIT);
    assert_eq!(r.err(), Some(khimeradb::StorageError::InvalidInput));
    let r = SSTable::try_new(
        vec![named("99999999999999999999999.sst", Vec::new())],
        SEGMENT_SIZE_LIMIT,
    );
    assert_eq!(r.err(), Some(khimeradb::StorageError::InvalidInput));
}

#[test]
fn test_duplicate_serial_rejected() {
    // Two well-formed names carrying the same serial cannot satisfy the
    // serial chain: invalid data, as for any other serial mismatch.
    let r = SSTable::try_new(
        vec![named("1.sst", Vec::new()), named("01.sst", Vec::new())],
        SEGMENT_SIZE_LIMIT,
    );
    assert_eq!(r.err(), Some(khimeradb::StorageError::InvalidData));
}

#[test]
fn test_serial_mismatch_rejected() {
    // One record gives the segment terminal serial 1, but the file claims 5.
    let mut bytes = Vec::new();
    bytes.extend_from_slice(b"key1");
    bytes.push(0);
    bytes.extend_from_slice(&6u32.to_le_bytes());
    bytes.extend_from_slice(b"value1");
    let r = SSTable::try_new(vec![named("5.sst", bytes)], SEGMENT_SIZE_LIMIT);
    assert_eq!(r.err(), Some(khimeradb::StorageError::InvalidData));
}

#[test]
fn test_recovery_orders_files_by_serial() {
    // Two sealed files handed over newest first still load oldest first.
    let mut table = empty_table();
    table.insert("a", &filler()).unwrap();
    table.insert("b", &filler()).unwrap();
    table.insert("c", b"x").unwrap();
    assert_eq!(table.file_count(), 2);
    let mut files = files_of(&table);
    files.reverse();
    let read_table = SSTable::try_new(files, SEGMENT_SIZE_LIMIT).unwrap();
    assert_eq!(&*read_table.get("a").unwrap(), &filler()[..]);
    assert_eq!(read_table.segment_count(), 3);
    assert!(read_table.file_at(0).serial < read_table.file_at(1).serial);
}

#[test]
fn test_unicode_keys_survive_recovery() {
    // A multi-byte UTF-8 key is sealed to disk and read back intact.
    let mut table = empty_table();
    let key_a = "cl\u{e9}";
    let key_b = "\u{65e5}\u{672c}";
    table.insert(key_a, "premi\u{e8}re".as_bytes()).unwrap();
    table.insert(key_b, "\u{306b}\u{3063}\u{307d}\u{3093}".as_bytes()).unwrap();
    table.insert("filler", &filler()).unwrap();
    assert!(table.file_count() >= 1);

    let read_table = SSTable::try_new(files_of(&table), SEGMENT_SIZE_LIMIT).unwrap();
    assert_eq!(read_table.get(key_a).unwrap(), "premi\u{e8}re".as_bytes().to_vec());
    assert_eq!(
        read_table.get(key_b).unwrap(),
        "\u{306b}\u{3063}\u{307d}\u{3093}".as_bytes().to_vec()
    );
}

#[test]
fn test_latest_serial_counts_mutations() {
    let mut table = empty_table();
    assert_eq!(table.latest_serial(), 0);
    table.insert("a", b"1").unwrap();
    table.insert("b", b"2").unwrap();
    table.delete("a");
    assert_eq!(table.latest_serial(), 3);
}

#[test]
fn test_compact_keeps_one_entry_per_key() {
    // Compaction merges duplicates to one entry per key and re-chunks by the
    // size bound; reads are a fixed point across it.
    let mut table = SSTable::try_new(Vec::new(), 10).unwrap();
    table.insert("a", &[0u8; 6]).unwrap();
    table.insert("b", &[1u8; 6]).unwrap(); // seals the first segment
    table.insert("a", &[2u8; 6]).unwrap();
    table.insert("c", &[3u8; 6]).unwrap(); // seals the second
    assert_eq!(table.segment_count(), 3);

    table.compact();

    assert_eq!(table.get("a").unwrap(), vec![2u8; 6]);
    assert_eq!(table.get("b").unwrap(), vec![1u8; 6]);
    assert_eq!(table.get("c").unwrap(), vec![3u8; 6]);

    // Each 7-byte entry closes its chunk under the bound of 10, and a fresh
    // open segment follows the last one.
    assert_eq!(table.segment_count(), 4);
    let mut entries = 0;
    for i in 0..table.segment_count() {
        entries += table.segment_at(i).entry_count();
    }
    assert_eq!(entries, 3);
}
