use tabula::memtable::MemTable;
use tabula::sstable::reader::SsTableReader;
use tabula::types::is_tombstone;

#[test]
fn test_set_and_get() {
    let mut t = MemTable::new();
    t.set(b"hello".to_vec(), b"test".to_vec());
    assert_eq!(t.get(b"hello"), Some(&b"test".to_vec()));
}

#[test]
fn test_delete() {
    let mut t = MemTable::new();
    t.set(b"hello".to_vec(), b"test".to_vec());
    t.delete(b"hello".to_vec());
    assert_eq!(t.get(b"hello"), Some(&b"__TOMBSTONE__".to_vec()));
}

#[test]
fn test_size() {
    let mut t = MemTable::new();
    t.set(b"hello".to_vec(), b"test".to_vec());
    let size = t.size_bytes();
    assert_eq!(size, 9);
}

#[test]
fn size_counts_every_key_once() {
    let mut t = MemTable::new();
    assert_eq!(t.size_bytes(), 0);
    t.set(b"hello".to_vec(), b"test".to_vec());
    t.set(b"hello".to_vec(), b"longer".to_vec());
    assert_eq!(t.size_bytes(), 11);
    t.delete(b"hello".to_vec());
    assert_eq!(t.size_bytes(), 5 + 13);
    t.delete(b"other".to_vec());
    assert_eq!(t.size_bytes(), 5 + 13 + 5 + 13);
}

#[test]
fn flush_all_keeps_deletions() {
    let mut t = MemTable::new();
    t.set(b"apple".to_vec(), b"1".to_vec());
    t.set(b"banana".to_vec(), b"2".to_vec());
    t.delete(b"apple".to_vec());
    let reader = SsTableReader::open(t.flush_all(20, 7)).unwrap();
    assert_eq!(
        reader.get_raw(b"apple").unwrap(),
        Some(b"__TOMBSTONE__".to_vec())
    );
    assert_eq!(reader.get_raw(b"banana").unwrap(), Some(b"2".to_vec()));
    assert_eq!(reader.iter().unwrap().count(), 2);
}

#[test]
fn test_scan() {
    let mut t = MemTable::new();
    t.set(b"apple".to_vec(), b"1".to_vec());
    t.set(b"mango".to_vec(), b"2".to_vec());
    t.set(b"banana".to_vec(), b"3".to_vec());
    t.set(b"cherry".to_vec(), b"4".to_vec());

    let results: Vec<_> = t.scan(b"banana", b"mango");
    assert_eq!(results.len(), 2);
    assert_eq!(results[0].0, &b"banana".to_vec());
    assert_eq!(results[1].0, &b"cherry".to_vec());
}

#[test]
fn test_flush_creates_file() {
    let mut t = MemTable::new();
    t.set(b"apple".to_vec(), b"1".to_vec());
    t.set(b"banana".to_vec(), b"2".to_vec());
    t.set(b"cherry".to_vec(), b"3".to_vec());

    let file = t.flush(29, 7);
    let reader = SsTableReader::open(file).unwrap();
    assert_eq!(reader.get(b"apple").unwrap(), Some(b"1".to_vec()));
    assert_eq!(reader.get(b"banana").unwrap(), Some(b"2".to_vec()));
    assert_eq!(reader.get(b"cherry").unwrap(), Some(b"3".to_vec()));
}

#[test]
fn test_flush_file_has_valid_footer() {
    let mut t = MemTable::new();
    t.set(b"apple".to_vec(), b"1".to_vec());
    t.set(b"banana".to_vec(), b"2".to_vec());

    let bytes = t.flush(20, 7);
    assert!(
        bytes.len() >= 16,
        "file must be at least 16 bytes for footer"
    );

    let footer_start = bytes.len() - 16;
    let index_offset =
        u64::from_le_bytes(bytes[footer_start..footer_start + 8].try_into().unwrap());
    let index_len = u64::from_le_bytes(
        bytes[footer_start + 8..footer_start + 16]
            .try_into()
            .unwrap(),
    );

    assert!(
        index_offset < bytes.len() as u64,
        "index_offset must be inside file"
    );
    assert!(
        index_offset + index_len <= footer_start as u64,
        "index block must not overlap footer"
    );
}

#[test]
fn test_flush_excludes_tombstones() {
    let mut t = MemTable::new();
    t.set(b"apple".to_vec(), b"1".to_vec());
    t.set(b"banana".to_vec(), b"2".to_vec());
    t.delete(b"apple".to_vec());

    let bytes = t.flush(20, 7);
    assert!(
        !bytes.windows(b"apple".len()).any(|w| w == b"apple"),
        "tombstoned key must not appear in SSTable"
    );
}

#[test]
fn test_scan_sorted_and_tombstone_filtered() {
    let mut t = MemTable::new();
    // inserted out of order intentionally
    t.set(b"fig".to_vec(), b"6".to_vec());
    t.set(b"apple".to_vec(), b"1".to_vec());
    t.set(b"kiwi".to_vec(), b"8".to_vec());
    t.set(b"date".to_vec(), b"4".to_vec());
    t.set(b"cherry".to_vec(), b"3".to_vec());
    t.set(b"elderberry".to_vec(), b"5".to_vec());
    t.set(b"banana".to_vec(), b"2".to_vec());
    t.set(b"grape".to_vec(), b"7".to_vec());
    t.set(b"honeydew".to_vec(), b"8".to_vec());
    t.set(b"jackfruit".to_vec(), b"9".to_vec());

    // delete one key inside the range - should not appear
    t.delete(b"elderberry".to_vec());

    let results: Vec<_> = t.scan(b"banana", b"kiwi");

    let keys: Vec<&Vec<u8>> = results.iter().map(|(k, _)| *k).collect();
    assert_eq!(
        keys,
        vec![
            &b"banana".to_vec(),
            &b"cherry".to_vec(),
            &b"date".to_vec(),
            &b"fig".to_vec(),
            &b"grape".to_vec(),
            &b"honeydew".to_vec(),
            &b"jackfruit".to_vec(),
        ]
    );
}

#[test]
fn set_replaces_and_get_misses() {
    let mut t = MemTable::new();
    assert_eq!(t.get(b"k"), None);
    assert_eq!(t.size_bytes(), 0);
    t.set(b"k".to_vec(), b"old".to_vec());
    t.set(b"k".to_vec(), b"newer".to_vec());
    assert_eq!(t.len(), 1);
    assert_eq!(t.get(b"k"), Some(&b"newer".to_vec()));
    assert_eq!(t.get(b"kk"), None);
    assert_eq!(t.size_bytes(), 6);
}

#[test]
fn a_deletion_of_an_unknown_key_is_recorded() {
    let mut t = MemTable::new();
    t.delete(b"ghost".to_vec());
    assert!(is_tombstone(t.get(b"ghost").unwrap()));
    assert_eq!(t.len(), 1);
    assert_eq!(t.size_bytes(), 5 + 13);
    assert!(t.into_iter().is_empty());
}

#[test]
fn live_pairs_come_in_key_order() {
    let mut t = MemTable::new();
    t.set(b"b".to_vec(), b"2".to_vec());
    t.set(b"".to_vec(), b"0".to_vec());
    t.set(b"ba".to_vec(), b"3".to_vec());
    t.set(b"a".to_vec(), b"1".to_vec());
    t.delete(b"b".to_vec());
    let keys: Vec<&Vec<u8>> = t.into_iter().iter().map(|(k, _)| *k).collect();
    assert_eq!(keys, vec![&b"".to_vec(), &b"a".to_vec(), &b"ba".to_vec()]);
}

#[test]
fn an_empty_range_scans_to_nothing() {
    let mut t = MemTable::new();
    t.set(b"a".to_vec(), b"1".to_vec());
    assert!(t.scan(b"a", b"a").is_empty());
    assert!(t.scan(b"b", b"z").is_empty());
    assert_eq!(t.scan(b"", b"b").len(), 1);
}

#[test]
fn the_tombstone_is_one_exact_value() {
    assert!(is_tombstone(b"__TOMBSTONE__"));
    assert!(!is_tombstone(b"__TOMBSTONE_"));
    assert!(!is_tombstone(b"__TOMBSTONE__x"));
    assert!(!is_tombstone(b"__tombstone__"));
    assert!(!is_tombstone(b""));
}
