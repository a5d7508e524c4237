use hnsw_index::storage::skip_list::Entry;
use hnsw_index::storage::wal::{decode_entry, decode_log, encode_delete, encode_set, WALEntry};

#[test]
fn new_entry_is_live_and_holds_its_value() {
    let entry = Entry::new(10, vec![1, 2, 3]);
    assert_eq!(entry.key(), 10);
    assert_eq!(entry.value(), &vec![1, 2, 3]);
    assert!(!entry.tombstone());
}

#[test]
fn new_entry_with_no_bytes() {
    let entry = Entry::new(0, Vec::new());
    assert_eq!(entry.key(), 0);
    assert!(entry.value().is_empty());
    assert!(!entry.tombstone());
}

#[test]
fn log_entry_holds_what_it_is_given() {
    let entry = WALEntry {
        key: b"hello".to_vec(),
        value: Some(b"world".to_vec()),
        timestamp: 12345,
        deleted: false,
    };
    assert_eq!(entry.key, b"hello");
    assert_eq!(entry.value.unwrap(), b"world");
    assert_eq!(entry.timestamp, 12345);
    assert!(!entry.deleted);
}

#[test]
fn set_record_layout() {
    let record = encode_set(b"hi", b"you", 0x0102);
    let mut expected = vec![2u8, 0, 0, 0, 0, 0, 0, 0, 0, b'h', b'i', 3, 0, 0, 0, 0, 0, 0, 0];
    expected.extend_from_slice(b"you");
    expected.extend_from_slice(&[2, 1, 0, 0, 0, 0, 0, 0, 0, 0, 0, 0, 0, 0, 0, 0]);
    assert_eq!(record, expected);
    assert_eq!(record.len(), 2 + 3 + 33);
}

#[test]
fn delete_record_layout() {
    let record = encode_delete(b"key", 7);
    let mut expected = vec![3u8, 0, 0, 0, 0, 0, 0, 0, 1];
    expected.extend_from_slice(b"key");
    expected.extend_from_slice(&[7, 0, 0, 0, 0, 0, 0, 0, 0, 0, 0, 0, 0, 0, 0, 0]);
    assert_eq!(record, expected);
    assert_eq!(record.len(), 3 + 25);
}

#[test]
fn set_record_reads_back() {
    let record = encode_set(b"hello", b"world", 12345);
    let (entry, next) = decode_entry(&record, 0).expect("Should be able to read one entry");
    assert_eq!(entry.key, b"hello");
    assert_eq!(entry.value.unwrap(), b"world");
    assert_eq!(entry.timestamp, 12345);
    assert!(!entry.deleted);
    assert_eq!(next, record.len());
    assert!(decode_entry(&record, next).is_none());
}

#[test]
fn delete_record_reads_back() {
    let record = encode_delete(b"key_to_delete", 54321);
    let (entry, next) = decode_entry(&record, 0).expect("Should read the delete entry");
    assert_eq!(entry.key, b"key_to_delete");
    assert!(entry.value.is_none());
    assert!(entry.deleted);
    assert_eq!(entry.timestamp, 54321);
    assert_eq!(next, record.len());
    assert!(decode_entry(&record, next).is_none());
}

#[test]
fn mixed_records_read_back_in_order() {
    let mut log = encode_set(b"key1", b"value1", 100);
    log.extend(encode_set(b"key2", b"value2", 101));
    log.extend(encode_delete(b"key1", 102));

    let entries = decode_log(&log);

    assert_eq!(entries.len(), 3);

    assert_eq!(entries[0].key, b"key1");
    assert_eq!(entries[0].value.as_deref(), Some(&b"value1"[..]));
    assert_eq!(entries[0].timestamp, 100);

    assert_eq!(entries[1].key, b"key2");
    assert_eq!(entries[1].value.as_deref(), Some(&b"value2"[..]));

    assert_eq!(entries[2].key, b"key1");
    assert!(entries[2].deleted);
    assert_eq!(entries[2].timestamp, 102);
}

#[test]
fn truncated_records_are_not_read() {
    let record = encode_set(b"abc", b"defg", u128::MAX);
    for cut in 0..record.len() {
        assert!(decode_entry(&record[..cut], 0).is_none());
        assert!(decode_log(&record[..cut]).is_empty());
    }
    let deleted = encode_delete(b"abc", 1);
    for cut in 0..deleted.len() {
        assert!(decode_entry(&deleted[..cut], 0).is_none());
    }
    assert!(decode_entry(&record, record.len() + 1).is_none());
    assert!(decode_entry(&[], 0).is_none());
}

#[test]
fn log_stops_at_the_first_incomplete_record() {
    let mut log = encode_set(b"a", b"1", 1);
    log.extend(encode_delete(b"b", 2));
    let whole = log.len();
    log.extend(encode_set(b"c", b"3", 3));
    log.truncate(whole + 5);
    let entries = decode_log(&log);
    assert_eq!(entries.len(), 2);
    assert_eq!(entries[1].key, b"b");
    assert!(entries[1].deleted);
}

#[test]
fn a_length_beyond_the_bytes_is_not_followed() {
    let mut record = vec![0xffu8; 8];
    record.push(0);
    record.extend_from_slice(&[0u8; 64]);
    assert!(decode_entry(&record, 0).is_none());
    let mut record = encode_set(b"k", b"v", 9);
    // The length of the value claims more than there is.
    record[10] = 200;
    assert!(decode_entry(&record, 0).is_none());
}

#[test]
fn empty_key_and_value() {
    let record = encode_set(b"", b"", 0);
    assert_eq!(record.len(), 33);
    let (entry, next) = decode_entry(&record, 0).unwrap();
    assert!(entry.key.is_empty());
    assert_eq!(entry.value, Some(vec![]));
    assert_eq!(next, 33);
    let (entry, next) = decode_entry(&encode_delete(b"", 5), 0).unwrap();
    assert!(entry.key.is_empty());
    assert_eq!(entry.value, None);
    assert_eq!(entry.timestamp, 5);
    assert_eq!(next, 25);
}

#[test]
fn any_nonzero_flag_means_deleted() {
    let mut record = encode_delete(b"k", 3);
    record[8] = 0x80;
    let (entry, _) = decode_entry(&record, 0).unwrap();
    assert!(entry.deleted);
    assert_eq!(entry.key, b"k");
    assert_eq!(entry.timestamp, 3);
}
