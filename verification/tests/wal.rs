use tabula::wal::{crc32, Wal, WalEntry, WalError};

fn put(key: &[u8], value: &[u8]) -> WalEntry {
    WalEntry::Put {
        key: key.to_vec(),
        value: value.to_vec(),
    }
}

fn delete(key: &[u8]) -> WalEntry {
    WalEntry::Delete { key: key.to_vec() }
}

fn assert_put(entry: &WalEntry, expected_key: &[u8], expected_value: &[u8]) {
    match entry {
        WalEntry::Put { key, value } => {
            assert_eq!(key, expected_key);
            assert_eq!(value, expected_value);
        }
        _ => panic!("expected Put"),
    }
}

fn assert_delete(entry: &WalEntry, expected_key: &[u8]) {
    match entry {
        WalEntry::Delete { key } => assert_eq!(key, expected_key),
        _ => panic!("expected Delete"),
    }
}

#[test]
fn test_encode_decode_put() {
    let entry = WalEntry::Put {
        key: b"hello".to_vec(),
        value: b"world".to_vec(),
    };
    let bytes = entry.encode();
    let (decoded, consumed) = WalEntry::decode(&bytes).unwrap();
    match decoded {
        WalEntry::Put { key, value } => {
            assert_eq!(key, b"hello");
            assert_eq!(value, b"world");
        }
        _ => panic!("expected Put"),
    }
    assert_eq!(consumed, bytes.len());
}

#[test]
fn test_encode_decode_delete() {
    let entry = WalEntry::Delete {
        key: b"bye".to_vec(),
    };
    let bytes = entry.encode();
    let (decoded, consumed) = WalEntry::decode(&bytes).unwrap();
    match decoded {
        WalEntry::Delete { key } => assert_eq!(key, b"bye"),
        _ => panic!("expected Delete"),
    }
    assert_eq!(consumed, bytes.len());
}

#[test]
fn test_decode_invalid_op_returns_error() {
    let bad = vec![9u8, 0, 0, 0, 0];
    assert!(WalEntry::decode(&bad).is_err());
}

#[test]
fn test_decode_truncated_entry_returns_error_not_panic() {
    let entry = WalEntry::Put {
        key: b"hello".to_vec(),
        value: b"world".to_vec(),
    };
    let bytes = entry.encode();

    // every possible truncation point of a torn write
    for cut in 0..bytes.len() {
        let result = WalEntry::decode(&bytes[..cut]);
        assert!(
            matches!(result, Err(WalError::Error)),
            "truncating to {cut} bytes should return WalError::Error, got {result:?}"
        );
    }
}

#[test]
fn test_decode_corrupted_bytes_returns_checksum_error() {
    let entry = WalEntry::Put {
        key: b"hello".to_vec(),
        value: b"world".to_vec(),
    };
    let mut bytes = entry.encode();

    // the last byte of "world", before the 4B checksum: the lengths stay intact
    let last = bytes.len() - 5;
    bytes[last] ^= 0xFF;

    let result = WalEntry::decode(&bytes);
    assert!(
        matches!(result, Err(WalError::Checksum)),
        "corrupted body should return WalError::Checksum, got {result:?}"
    );
}

#[test]
fn test_append_and_replay() {
    let mut wal = Wal::open(Vec::new());
    wal.append(&put(b"foo", b"bar"));
    wal.append(&delete(b"foo"));
    wal.append(&put(b"baz", b"qux"));

    let entries = Wal::replay(wal.as_bytes());
    assert_eq!(entries.len(), 3);
    assert_put(&entries[0], b"foo", b"bar");
    assert_delete(&entries[1], b"foo");
    assert_put(&entries[2], b"baz", b"qux");
}

#[test]
fn test_replay_empty_file() {
    let entries = Wal::replay(b"");
    assert_eq!(entries.len(), 0);
}

#[test]
fn test_replay_stops_at_truncated_tail_without_failing() {
    let mut raw = Vec::new();
    raw.extend(put(b"foo", b"bar").encode());
    raw.extend(delete(b"foo").encode());

    // a crash in the middle of the third append
    let third_entry_bytes = put(b"baz", b"qux").encode();
    raw.extend(&third_entry_bytes[..third_entry_bytes.len() - 3]);

    let entries = Wal::replay(&raw);
    assert_eq!(entries.len(), 2, "should recover exactly the complete entries");
    assert_put(&entries[0], b"foo", b"bar");
    assert_delete(&entries[1], b"foo");
}

#[test]
fn crc32_matches_published_check_values() {
    assert_eq!(crc32(b"123456789"), 0xCBF43926);
    assert_eq!(crc32(b""), 0);
    assert_eq!(crc32(b"a"), 0xE8B7BE43);
}

#[test]
fn encode_lays_the_fields_out_in_order() {
    let bytes = put(b"ab", b"xyz").encode();
    assert_eq!(bytes[0], 0);
    assert_eq!(bytes[1..5].to_vec(), vec![2u8, 0, 0, 0]);
    assert_eq!(bytes[5..7].to_vec(), b"ab".to_vec());
    assert_eq!(bytes[7..11].to_vec(), vec![3u8, 0, 0, 0]);
    assert_eq!(bytes[11..14].to_vec(), b"xyz".to_vec());
    let sum = crc32(&bytes[..14]);
    assert_eq!(bytes[14..].to_vec(), sum.to_le_bytes().to_vec());

    let bytes = delete(b"ab").encode();
    assert_eq!(bytes.len(), 11);
    assert_eq!(bytes[0], 1);
}

#[test]
fn decode_ignores_what_follows_the_entry() {
    let mut bytes = delete(b"key").encode();
    let len = bytes.len();
    bytes.extend_from_slice(b"trailing");
    let (entry, consumed) = WalEntry::decode(&bytes).unwrap();
    assert_delete(&entry, b"key");
    assert_eq!(consumed, len);
}

#[test]
fn what_decodes_is_its_own_encoding() {
    let mut log = put(b"hello", b"world").encode();
    log.extend(delete(b"").encode());
    log.extend_from_slice(b"torn");
    let (entry, consumed) = WalEntry::decode(&log).unwrap();
    assert_eq!(entry.encode(), log[..consumed].to_vec());

    let mut again = Wal::open(Vec::new());
    for entry in Wal::replay(&log) {
        again.append(&entry);
    }
    assert_eq!(
        again.as_bytes().to_vec(),
        log[..Wal::replayed_len(&log)].to_vec()
    );
}

#[test]
fn decode_handles_empty_keys_and_values() {
    let bytes = put(b"", b"").encode();
    let (entry, consumed) = WalEntry::decode(&bytes).unwrap();
    assert_put(&entry, b"", b"");
    assert_eq!(consumed, 13);
}

#[test]
fn every_altered_content_byte_is_detected() {
    let bytes = put(b"hello", b"world").encode();
    for i in (5..10).chain(14..bytes.len()) {
        for flip in 1..=255u8 {
            let mut altered = bytes.clone();
            altered[i] ^= flip;
            assert!(matches!(
                WalEntry::decode(&altered),
                Err(WalError::Checksum)
            ));
        }
    }
}

#[test]
fn bursts_of_up_to_four_bytes_change_the_checksum() {
    let data = b"the quick brown fox".to_vec();
    let sum = crc32(&data);
    for len in 1..=4 {
        for start in 0..=data.len() - len {
            for flip in [0x01u8, 0x80, 0xA5, 0xFF] {
                let mut altered = data.clone();
                for byte in altered[start..start + len].iter_mut() {
                    *byte ^= flip;
                }
                assert_ne!(crc32(&altered), sum);
            }
        }
    }
}

#[test]
fn contents_replaced_as_a_whole_are_detected() {
    let stored = put(b"hello", b"world").encode();
    let other = put(b"HELLO", b"there").encode();
    let mut mixed = other[..other.len() - 4].to_vec();
    mixed.extend_from_slice(&stored[stored.len() - 4..]);
    assert!(matches!(
        WalEntry::decode(&mixed),
        Err(WalError::Checksum)
    ));
}

#[test]
fn a_cut_log_gives_back_the_whole_entries_before_the_cut() {
    let first = put(b"foo", b"bar").encode();
    let second = delete(b"foo").encode();
    let mut log = first.clone();
    log.extend_from_slice(&second);
    for cut in 0..=log.len() {
        let expected = if cut < first.len() {
            0
        } else if cut < log.len() {
            1
        } else {
            2
        };
        assert_eq!(Wal::replay(&log[..cut]).len(), expected);
    }
}

#[test]
fn replay_stops_at_an_altered_entry() {
    let first = put(b"foo", b"bar").encode();
    let mut log = first.clone();
    log.extend(put(b"baz", b"qux").encode());
    log.extend(delete(b"foo").encode());
    log[first.len() + 5] ^= 1;
    let entries = Wal::replay(&log);
    assert_eq!(entries.len(), 1);
    assert_put(&entries[0], b"foo", b"bar");
}

#[test]
fn a_log_cut_behind_its_last_whole_entry_can_grow_again() {
    let mut log = put(b"foo", b"bar").encode();
    let whole = log.len();
    let torn = delete(b"foo").encode();
    log.extend_from_slice(&torn[..torn.len() - 1]);
    assert_eq!(Wal::replayed_len(&log), whole);
    assert_eq!(Wal::replayed_len(b""), 0);

    log.truncate(whole);
    let mut wal = Wal::open(log);
    wal.append(&put(b"baz", b"qux"));
    let entries = Wal::replay(wal.as_bytes());
    assert_eq!(entries.len(), 2);
    assert_put(&entries[1], b"baz", b"qux");
    assert_eq!(Wal::replayed_len(wal.as_bytes()), wal.as_bytes().len());
}

#[test]
fn truncate_empties_the_log() {
    let mut wal = Wal::open(put(b"foo", b"bar").encode());
    assert_eq!(Wal::replay(wal.as_bytes()).len(), 1);
    wal.truncate();
    assert_eq!(wal.as_bytes().len(), 0);
    assert_eq!(Wal::replay(wal.as_bytes()).len(), 0);
}
