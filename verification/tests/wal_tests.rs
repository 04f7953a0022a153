use stone_kvs::wal::crc32c::crc32c;
use stone_kvs::wal::{
    wal_file_header, WalConfig, WalEntry, WalEntryIterator, WalError, WalErrorKind, WalOpenError,
    WalOpenErrorKind, WalWriter,
};

fn log_of(writes: &[(&[u8], &[u8])]) -> Vec<u8> {
    let mut file = wal_file_header();
    let mut writer = WalWriter::new();
    for (k, v) in writes {
        let (_, record) = writer.write_entry(&k.to_vec(), &v.to_vec());
        file.extend_from_slice(&record);
    }
    file
}

fn open_log(file: Vec<u8>) -> WalEntryIterator {
    WalEntryIterator::new(String::from("wal.log"), Some(file)).unwrap()
}

#[test]
fn wal_initializes_sequence_number_to_zero() {
    let writer = WalWriter::new();

    assert_eq!(writer.sequence(), 0);
}

#[test]
fn write_entry_increments_sequence_number() {
    let mut writer = WalWriter::new();
    let initial_sequence = writer.sequence();

    let (returned_sequence, _) = writer.write_entry(&b"key1".to_vec(), &b"value1".to_vec());

    assert_eq!(returned_sequence, initial_sequence + 1);
    assert_eq!(writer.sequence(), initial_sequence + 1);
}

#[test]
fn entries_iterator_returns_empty_for_new_wal() {
    let file = log_of(&[]);

    let mut iter = open_log(file);

    assert!(iter.next().is_none());
    assert!(iter.next().is_none());
}

#[test]
fn write_entry_can_be_read_back() {
    let file = log_of(&[(b"test_key", b"test_value")]);

    let mut iter = open_log(file);
    let entry = iter.next().unwrap().unwrap();

    assert_eq!(entry.sequence, 1);
    assert_eq!(entry.entry_type, 1);
    assert_eq!(entry.key, b"test_key");
    assert_eq!(entry.value, b"test_value");
    assert_eq!(entry.key_size, 8);
    assert_eq!(entry.value_size, 10);
}

#[test]
fn wal_entry_iterator_fail_for_non_existent_file() {
    let result = WalEntryIterator::new(String::from("wal.log"), None);

    assert!(result.is_err());
}

#[test]
fn wal_entry_iterator_fails_with_invalid_header() {
    let result = WalEntryIterator::new(String::from("wal.log"), Some(b"INVALID_HEADER___".to_vec()));

    assert!(result.is_err());
}

#[test]
fn write_entry_cannot_be_read_back_if_corrupted_entry_data() {
    let mut file = log_of(&[(b"test_key", b"test_value")]);

    // Skip file header + entry header
    file[38..38 + 14].copy_from_slice(b"CORRUPTED_DATA");

    let mut iter = open_log(file);
    let entry_res = iter.next().unwrap();
    assert!(entry_res.is_err());
}

#[test]
fn write_entry_cannot_be_read_back_if_corrupted_entry_header() {
    let mut file = log_of(&[(b"test_key", b"test_value")]);

    // Overwrite from inside the record's fixed part
    file[24..24 + 14].copy_from_slice(b"CORRUPTED_DATA");

    let mut iter = open_log(file);
    let entry_res = iter.next().unwrap();
    assert!(entry_res.is_err());
}

#[test]
fn write_entry_cannot_be_read_entry_after_a_corrupted_one_in_entry_data() {
    let mut file = log_of(&[(b"test_key", b"test_value"), (b"test_key2", b"test_value2")]);

    // Skip file header + entry header
    file[38..38 + 14].copy_from_slice(b"CORRUPTED_DATA");

    let mut iter = open_log(file);
    let _ = iter.next().unwrap();
    assert!(iter.next().is_none());
}

#[test]
fn wal_entry_iterator_fails_with_corrupted_crc32c() {
    let mut file = log_of(&[(b"test_key", b"test_value")]);

    // Corrupt four bytes starting inside the record's sequence field
    file[21..25].copy_from_slice(&[0xFF, 0xFF, 0xFF, 0xFF]);

    let mut iter = open_log(file);
    let entry_res = iter.next().unwrap();

    assert!(entry_res.is_err());
}

#[test]
fn file_header_has_magic_version_and_reserved_bytes() {
    let header = wal_file_header();

    assert_eq!(
        header,
        vec![0x57, 0x41, 0x4c, 0x00, 1, 0, 0, 0, 0, 0, 0, 0, 0, 0, 0, 0]
    );
}

#[test]
fn round_trip_checksum_matches_known_framing() {
    // The record framing "test_key" -> "test_value" under sequence 1:
    // sequence (8 LE bytes), type 1, key size 8, value size 10, key, value.
    let file = log_of(&[(b"test_key", b"test_value")]);

    let mut iter = open_log(file);
    let entry = iter.next().unwrap().unwrap();

    let mut framed = vec![
        0x01, 0x00, 0x00, 0x00, 0x00, 0x00, 0x00, 0x00, // sequence = 1
        0x01, // type = PUT
        0x08, 0x00, 0x00, 0x00, // key size = 8
        0x0A, 0x00, 0x00, 0x00, // value size = 10
    ];
    framed.extend_from_slice(b"test_key");
    framed.extend_from_slice(b"test_value");

    assert_eq!(entry.crc32c, crc32c(&framed));
    assert_eq!(entry.data_for_crc(), framed.as_slice());
    assert!(iter.next().is_none());
}

#[test]
fn corrupt_checksum_field_fails_then_stays_finished() {
    let mut file = log_of(&[(b"test_key", b"test_value")]);

    // Overwrite the stored checksum, bytes [16..20) of the file.
    file[16..20].copy_from_slice(&[0xFF, 0xFF, 0xFF, 0xFF]);

    let mut iter = open_log(file);
    let entry_res = iter.next().unwrap();
    assert!(matches!(
        entry_res.unwrap_err().kind,
        WalErrorKind::WalFileCorrupted(_)
    ));
    assert!(iter.next().is_none());
}

#[test]
fn truncation_at_record_boundary_ends_cleanly() {
    let file = log_of(&[(b"test_key", b"test_value"), (b"k2", b"v2")]);
    // First record ends at 16 + 4 + 17 + 8 + 10 = 55.
    let truncated = file[..55].to_vec();

    let mut iter = open_log(truncated);
    let entry = iter.next().unwrap().unwrap();
    assert_eq!(entry.sequence, 1);
    assert!(iter.next().is_none());
}

#[test]
fn truncation_inside_record_header_ends_cleanly() {
    let file = log_of(&[(b"test_key", b"test_value")]);
    // Cut 14 bytes into the record: not even its fixed part survives.
    let truncated = file[..30].to_vec();

    let mut iter = open_log(truncated);
    assert!(iter.next().is_none());
}

#[test]
fn truncation_inside_record_payload_is_corruption() {
    let file = log_of(&[(b"test_key", b"test_value")]);
    // Keep the fixed part but cut the key and value short.
    let truncated = file[..40].to_vec();

    let mut iter = open_log(truncated);
    let entry_res = iter.next().unwrap();
    assert!(matches!(
        entry_res.unwrap_err().kind,
        WalErrorKind::WalFileCorrupted(_)
    ));
    assert!(iter.next().is_none());
}

#[test]
fn single_byte_flip_in_value_is_detected() {
    let mut file = log_of(&[(b"test_key", b"test_value")]);
    let last = file.len() - 1;
    file[last] ^= 0x01;

    let mut iter = open_log(file);
    let entry_res = iter.next().unwrap();
    assert!(matches!(
        entry_res.unwrap_err().kind,
        WalErrorKind::WalFileCorrupted(_)
    ));
}

#[test]
fn replay_yields_records_in_sequence_order() {
    let writes: Vec<(Vec<u8>, Vec<u8>)> = (1..=5u8)
        .map(|i| (vec![b'k', i], vec![b'v', i, i]))
        .collect();
    let borrowed: Vec<(&[u8], &[u8])> = writes
        .iter()
        .map(|(k, v)| (k.as_slice(), v.as_slice()))
        .collect();
    let file = log_of(&borrowed);

    let mut iter = open_log(file);
    for (i, (k, v)) in writes.iter().enumerate() {
        let entry = iter.next().unwrap().unwrap();
        assert_eq!(entry.sequence, (i + 1) as u64);
        assert_eq!(entry.entry_type, 1);
        assert_eq!(&entry.key, k);
        assert_eq!(&entry.value, v);
    }
    assert!(iter.next().is_none());
}

#[test]
fn empty_key_and_value_are_permitted() {
    let file = log_of(&[(b"", b"")]);

    let mut iter = open_log(file);
    let entry = iter.next().unwrap().unwrap();
    assert_eq!(entry.sequence, 1);
    assert_eq!(entry.key_size, 0);
    assert_eq!(entry.value_size, 0);
    assert!(entry.key.is_empty());
    assert!(entry.value.is_empty());
    assert!(iter.next().is_none());
}

#[test]
fn missing_log_reports_wal_file_doesnt_exist() {
    let err = WalEntryIterator::new(String::from("wal.log"), None).unwrap_err();

    assert!(matches!(err.kind, WalErrorKind::WalFileDoesntExist));
    assert_eq!(err.path, "wal.log");
}

#[test]
fn bad_magic_reports_wal_file_corrupted() {
    let mut file = wal_file_header();
    file[0] = b'X';

    let err = WalEntryIterator::new(String::from("wal.log"), Some(file)).unwrap_err();
    assert!(matches!(err.kind, WalErrorKind::WalFileCorrupted(_)));
}

#[test]
fn bad_version_reports_wal_file_corrupted() {
    let mut file = wal_file_header();
    file[4] = 2;

    let err = WalEntryIterator::new(String::from("wal.log"), Some(file)).unwrap_err();
    assert!(matches!(err.kind, WalErrorKind::WalFileCorrupted(_)));
}

#[test]
fn short_header_reports_wal_file_corrupted() {
    let err = WalEntryIterator::new(String::from("wal.log"), Some(vec![0x57, 0x41])).unwrap_err();

    assert!(matches!(err.kind, WalErrorKind::WalFileCorrupted(_)));
}

#[test]
fn error_messages_identify_the_path() {
    let wal_error = WalError {
        path: String::from("/data/wal/wal.log"),
        kind: WalErrorKind::WalFileError(String::from("permission denied")),
    };
    assert_eq!(wal_error.message(), "error reading `/data/wal/wal.log`");

    let open_error = WalOpenError {
        path: String::from("/data"),
        kind: WalOpenErrorKind::ConfigPathIsNotReadable,
    };
    assert_eq!(open_error.message(), "error reading `/data`");
}

#[test]
fn wal_config_holds_the_path() {
    let config = WalConfig::new(String::from("/data"));

    assert_eq!(config.path, "/data");
}

#[test]
fn read_to_end_collects_all_records() {
    let file = log_of(&[(b"a", b"1"), (b"b", b"2"), (b"c", b"3")]);

    let mut iter = open_log(file);
    let (entries, fault) = iter.read_to_end();

    assert!(fault.is_none());
    assert_eq!(entries.len(), 3);
    assert_eq!(entries[0].key, b"a");
    assert_eq!(entries[1].key, b"b");
    assert_eq!(entries[2].key, b"c");
    assert_eq!(entries[2].sequence, 3);
}

#[test]
fn read_to_end_stops_at_corruption() {
    let mut file = log_of(&[(b"test_key", b"test_value"), (b"k2", b"v2")]);
    // Corrupt the second record's stored checksum (the first record
    // ends at byte 55).
    file[55] ^= 0xFF;

    let mut iter = open_log(file);
    let (entries, fault) = iter.read_to_end();

    assert_eq!(entries.len(), 1);
    assert_eq!(entries[0].key, b"test_key");
    assert!(matches!(
        fault.unwrap().kind,
        WalErrorKind::WalFileCorrupted(_)
    ));
}

#[test]
fn wal_entry_caches_its_framed_tail() {
    let entry = WalEntry::new(0, 7, 1, 1, 2, vec![0xAA], vec![0xBB, 0xCC]);

    let framed = entry.data_for_crc();
    assert_eq!(
        framed,
        &[
            0x07, 0x00, 0x00, 0x00, 0x00, 0x00, 0x00, 0x00, // sequence = 7
            0x01, // type
            0x01, 0x00, 0x00, 0x00, // key size = 1
            0x02, 0x00, 0x00, 0x00, // value size = 2
            0xAA, // key
            0xBB, 0xCC, // value
        ]
    );
}
