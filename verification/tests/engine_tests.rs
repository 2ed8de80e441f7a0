use khimeradb::engine::SSTEngine;

fn fresh_engine() -> SSTEngine {
    SSTEngine::try_new(Vec::new()).unwrap()
}

fn wal_frame_count(engine: &SSTEngine) -> usize {
    let mut it = engine.wal().iter();
    let mut count = 0;
    while let Some(_) = it.next() {
        count += 1;
    }
    count
}

#[test]
fn test_engine_insert() {
    let mut engine = fresh_engine();

    engine.insert("key1", b"value1").unwrap();

    // Verify data exists
    assert_eq!(&*engine.get("key1").unwrap().unwrap(), b"value1");

    // Verify one log file backs the journal
    assert_eq!(engine.wal().storage().segment_count(), 1);
}

#[test]
fn test_engine_delete() {
    let mut engine = fresh_engine();

    engine.insert("key1", b"value1").unwrap();
    assert_eq!(&*engine.get("key1").unwrap().unwrap(), b"value1");

    engine.delete("key1").unwrap();
    assert!(engine.get("key1").unwrap().is_none());

    // Verify both operations went to the same log file
    assert_eq!(engine.wal().storage().segment_count(), 1);
    assert_eq!(wal_frame_count(&engine), 2);
}

#[test]
fn test_engine_delete_nonexistent() {
    let mut engine = fresh_engine();

    // Delete should succeed even if key doesn't exist
    engine.delete("nonexistent").unwrap();
    assert!(engine.get("nonexistent").unwrap().is_none());

    // Verify the operation was logged
    assert_eq!(engine.wal().storage().segment_count(), 1);
    assert_eq!(wal_frame_count(&engine), 1);
}

#[test]
fn test_engine_delete_then_insert() {
    let mut engine = fresh_engine();

    engine.insert("key1", b"value1").unwrap();
    engine.delete("key1").unwrap();
    engine.insert("key1", b"value2").unwrap();

    assert_eq!(&*engine.get("key1").unwrap().unwrap(), b"value2");

    // Verify all operations were logged
    assert_eq!(engine.wal().storage().segment_count(), 1);
    assert_eq!(wal_frame_count(&engine), 3);
}

#[test]
fn test_engine_segment_overflow() {
    let mut engine = fresh_engine();

    // Create enough data to force segment overflow
    let large_value = vec![0u8; 1024 * 1024];
    engine.insert("key1", &large_value).unwrap();
    engine.insert("key2", b"value2").unwrap();

    // Verify a sealed segment file exists in the data directory model
    assert!(engine.table().file_count() >= 1);

    // Verify the log reflects the changes
    assert!(engine.wal().storage().segment_count() >= 1);

    // Verify data is still accessible
    assert_eq!(&*engine.get("key2").unwrap().unwrap(), b"value2");
}

#[test]
fn test_last_write_wins_scenario() {
    // insert, overwrite, delete, insert again: the last write decides, and
    // exactly four records stand in the first log file.
    let mut engine = fresh_engine();
    engine.insert("k1", b"v1").unwrap();
    engine.insert("k1", b"v2").unwrap();
    engine.delete("k1").unwrap();
    engine.insert("k1", b"v3").unwrap();

    assert_eq!(engine.get("k1").unwrap(), Some(b"v3".to_vec()));
    assert_eq!(engine.wal().storage().segment_count(), 1);
    assert_eq!(wal_frame_count(&engine), 4);
}

#[test]
fn test_wal_record_layout() {
    // One insert journals serial, opcode, key, terminator, value, terminator,
    // behind a 4-byte big-endian frame length.
    let mut engine = fresh_engine();
    engine.insert("ab", b"xyz").unwrap();

    let mut it = engine.wal().iter();
    let frame = it.next().unwrap();
    assert!(it.next().is_none());

    let mut expected = Vec::new();
    expected.extend_from_slice(&1u64.to_be_bytes());
    expected.push(1); // insert opcode
    expected.extend_from_slice(b"ab");
    expected.push(0);
    expected.extend_from_slice(b"xyz");
    expected.push(0);
    assert_eq!(frame, expected);

    let raw = engine.wal().storage().read_at(0, 4);
    assert_eq!(raw, (expected.len() as u32).to_be_bytes().to_vec());
}

#[test]
fn test_replay_wal_recovers_mutations() {
    // Journal a few mutations, then replay the raw log bytes into a fresh
    // engine: the reads come back.
    let mut engine = fresh_engine();
    engine.insert("k1", b"v1").unwrap();
    engine.insert("k2", b"v2").unwrap();
    engine.delete("k1").unwrap();

    let wal_bytes = engine.wal().storage().segment_bytes(0).clone();

    let mut recovered = fresh_engine();
    recovered.replay_wal(wal_bytes).unwrap();
    assert!(recovered.get("k1").unwrap().is_none());
    assert_eq!(recovered.get("k2").unwrap(), Some(b"v2".to_vec()));
    assert_eq!(recovered.table().latest_serial(), 3);
}

#[test]
fn test_replay_wal_skips_stale_serials() {
    // A record whose serial is not newer than the table's latest is skipped.
    let mut engine = fresh_engine();
    engine.insert("k1", b"v1").unwrap();
    let wal_bytes = engine.wal().storage().segment_bytes(0).clone();

    // The engine already applied serial 1; replaying its own log changes
    // nothing.
    engine.replay_wal(wal_bytes).unwrap();
    assert_eq!(engine.get("k1").unwrap(), Some(b"v1".to_vec()));
    assert_eq!(engine.table().latest_serial(), 1);
}

#[test]
fn test_replay_wal_rejects_garbage() {
    let mut engine = fresh_engine();
    // A frame that is not a record: 3 bytes framed as one entry.
    let mut bytes = Vec::new();
    bytes.extend_from_slice(&3u32.to_be_bytes());
    bytes.extend_from_slice(&[1, 2, 3]);
    let r = engine.replay_wal(bytes);
    assert_eq!(r.err(), Some(khimeradb::StorageError::InvalidData));
}
