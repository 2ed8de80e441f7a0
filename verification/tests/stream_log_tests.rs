use khimeradb::stream::{SegmentedByteStream, SeekOrigin};
use khimeradb::log::{Log, MemoryStream};
use khimeradb::codec::{encode_segment, decode_segment};
use khimeradb::table::SSTable;
use khimeradb::wire::{u32_to_be_bytes, u64_to_be_bytes};
use khimeradb::keys::{key_compare, KeyOrder};

#[test]
fn test_file_segment_stream_write() {
    let mut stream = SegmentedByteStream::new(1024);

    let data = b"Hello, World!";
    assert_eq!(stream.write(data), data.len());
    assert_eq!(stream.position(), data.len() as u64);
    assert_eq!(stream.segment_count(), 1);
    assert_eq!(stream.segment_size(0), data.len() as u64);
}

#[test]
fn test_file_segment_stream_multiple_segments() {
    let mut stream = SegmentedByteStream::new(10);

    let data = b"Hello, World!";
    stream.write(data);
    stream.write(data);

    assert_eq!(stream.segment_count(), 2);
    assert!(stream.segment_size(0) == 13);
    assert!(stream.segment_size(1) == 13);
}

#[test]
fn test_file_segment_stream_read() {
    let mut stream = SegmentedByteStream::new(1024);

    let data = b"Hello, World!";
    stream.write(data);

    stream.seek(SeekOrigin::Start(0)).unwrap();
    let buf = stream.read(data.len());
    assert_eq!(buf.len(), data.len());
    assert_eq!(&buf, data);
}

#[test]
fn test_file_segment_stream_seek() {
    let mut stream = SegmentedByteStream::new(1024);

    let data = b"Hello, World!";
    stream.write(data);

    stream.seek(SeekOrigin::Start(7)).unwrap();
    let buf = stream.read(6);
    assert_eq!(&buf, b"World!");
}

#[test]
fn test_file_segment_stream_read_across_segments() {
    let mut stream = SegmentedByteStream::new(10);

    stream.write(b"Hello, ");

    stream.write(b"World!");

    stream.seek(SeekOrigin::Start(0)).unwrap();
    let buf = stream.read(13);
    assert_eq!(buf.len(), 13);
    assert_eq!(&buf, b"Hello, World!");
}

#[test]
fn test_file_segment_stream_seek_negative() {
    let mut stream = SegmentedByteStream::new(1024);

    let data = b"Hello, World!";
    stream.write(data);

    // Should succeed - seeking from end
    assert!(stream.seek(SeekOrigin::End(-5)).is_ok());

    // Should fail - seeking before start
    assert!(stream.seek(SeekOrigin::End(-20)).is_err());
    assert!(stream.seek(SeekOrigin::Current(-20)).is_err());
}

#[test]
fn test_stream_read_past_end_is_empty() {
    let mut stream = SegmentedByteStream::new(4);
    stream.write(b"abcdef");
    stream.seek(SeekOrigin::Start(100)).unwrap();
    assert_eq!(stream.read(5).len(), 0);
    assert_eq!(stream.read_at(6, 5).len(), 0);
    assert_eq!(stream.read_at(4, 5), b"ef".to_vec());
}

#[test]
fn test_log() {
    let count = 100;
    let storage = MemoryStream::new();
    let mut log = Log::new(storage);
    let entry = [0; 100];
    for _ in 0..count {
        log.append(&entry).unwrap();
    }
    let mut seen = 0;
    let mut it = log.iter();
    while let Some(item) = it.next() {
        assert_eq!(item.len(), 100);
        seen += 1;
    }
    assert_eq!(seen, count);
}

#[test]
fn test_log_over_segmented_stream() {
    // The log rescans from the start and yields independent snapshots, across
    // backing-file rotation.
    let mut log = Log::new(SegmentedByteStream::new(8));
    log.append(b"one").unwrap();
    log.append(b"twotwo").unwrap();
    log.append(b"three").unwrap();

    assert!(log.storage().segment_count() > 1);

    let mut it = log.iter();
    assert_eq!(it.next().unwrap(), b"one".to_vec());
    assert_eq!(it.next().unwrap(), b"twotwo".to_vec());
    assert_eq!(it.next().unwrap(), b"three".to_vec());
    assert!(it.next().is_none());

    let mut again = log.iter();
    assert_eq!(again.next().unwrap(), b"one".to_vec());
}

#[test]
fn test_log_truncated_tail_ends_cleanly() {
    // A dangling length prefix with no payload reads as a clean end.
    let mut raw = Vec::new();
    raw.extend_from_slice(&3u32.to_be_bytes());
    raw.extend_from_slice(b"abc");
    raw.extend_from_slice(&10u32.to_be_bytes());
    let scan = Log::new(MemoryStream::from_bytes(raw));
    let mut it = scan.iter();
    assert_eq!(it.next().unwrap(), b"abc".to_vec());
    assert!(it.next().is_none());
}

#[test]
fn test_write_segment() {
    let mut table = SSTable::try_new(Vec::new(), 1024).unwrap();
    table.insert("key1", b"value1").unwrap();
    table.insert("key2", b"value2").unwrap();

    let data = encode_segment(table.segment_at(0));

    // Verify that "key1" was written correctly
    let mut pos = 0;
    assert_eq!(&data[pos..pos + 4], b"key1"); // key
    pos += 4;
    assert_eq!(data[pos], 0); // null terminator
    pos += 1;
    assert_eq!(&data[pos..pos + 4], &6u32.to_le_bytes()); // value length
    pos += 4;
    assert_eq!(&data[pos..pos + 6], b"value1"); // value
    pos += 6;

    // Verify that "key2" was written correctly
    assert_eq!(&data[pos..pos + 4], b"key2"); // key
    pos += 4;
    assert_eq!(data[pos], 0); // null terminator
    pos += 1;
    assert_eq!(&data[pos..pos + 4], &6u32.to_le_bytes()); // value length
    pos += 4;
    assert_eq!(&data[pos..pos + 6], b"value2"); // value

    // Verify total length is correct
    assert_eq!(data.len(), 30);
}

#[test]
fn test_read_segment() {
    let mut table = SSTable::try_new(Vec::new(), 1024).unwrap();
    table.insert("key1", b"value1").unwrap();
    table.insert("key2", b"value2").unwrap();
    table.delete("key3");

    let buffer = encode_segment(table.segment_at(0));

    let segment = decode_segment(&buffer, 0).unwrap();

    // Verify segment contents
    assert_eq!(segment.entry_count(), 3);
    assert_eq!(segment.get(b"key1").unwrap().unwrap(), b"value1".to_vec());
    assert_eq!(segment.get(b"key2").unwrap().unwrap(), b"value2".to_vec());
    assert!(segment.get(b"key3").unwrap().is_none());

    // Verify segment size tracking
    assert_eq!(
        segment.size(),
        "key1".len() + "value1".len() + "key2".len() + "value2".len() + "key3".len()
    );
}

#[test]
fn test_read_segment_empty() {
    let segment = decode_segment(&Vec::new(), 0).unwrap();
    assert_eq!(segment.entry_count(), 0);
    assert_eq!(segment.size(), 0);
}

#[test]
fn test_read_segment_invalid_utf8() {
    let invalid_data = vec![0xFF, 0xFF, 0x00]; // Invalid UTF-8 sequence
    assert!(decode_segment(&invalid_data, 0).is_err());
}

#[test]
fn test_read_segment_truncated_record() {
    // A key with no terminator, and a record cut inside its value, are both
    // invalid data; a cut exactly at a key boundary is a clean end.
    assert!(decode_segment(&b"key".to_vec(), 0).is_err());
    let mut cut = Vec::new();
    cut.extend_from_slice(b"key1");
    cut.push(0);
    cut.extend_from_slice(&6u32.to_le_bytes());
    cut.extend_from_slice(b"val");
    assert!(decode_segment(&cut, 0).is_err());
}

#[test]
fn test_big_endian_wire_format() {
    assert_eq!(u32_to_be_bytes(0x01020304), vec![1, 2, 3, 4]);
    assert_eq!(u64_to_be_bytes(0x0102030405060708), vec![1, 2, 3, 4, 5, 6, 7, 8]);
}

#[test]
fn test_key_compare_orders_bytes() {
    assert!(matches!(key_compare(b"a", b"b"), KeyOrder::Before));
    assert!(matches!(key_compare(b"b", b"a"), KeyOrder::After));
    assert!(matches!(key_compare(b"ab", b"ab"), KeyOrder::Same));
    assert!(matches!(key_compare(b"a", b"ab"), KeyOrder::Before));
    assert!(matches!(key_compare(b"ab", b"a"), KeyOrder::After));
    assert!(matches!(key_compare(b"", b""), KeyOrder::Same));
}
