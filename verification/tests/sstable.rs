use tabula::memtable::MemTable;
use tabula::sstable::reader::SsTableReader;
use tabula::sstable::writer::{SsTableError, SsTableWriter};

fn u64_at(bytes: &[u8], at: usize) -> u64 {
    u64::from_le_bytes(bytes[at..at + 8].try_into().unwrap())
}

fn small_table() -> Vec<u8> {
    let mut writer = SsTableWriter::new(20, 7);
    writer.add(b"a", b"1");
    writer.add(b"c", b"3");
    writer.finish()
}

#[test]
fn get_finds_every_key_across_many_checkpoints() {
    let mut writer = SsTableWriter::new(19171, 7);
    let mut keys = Vec::new();
    for i in 0..2000u32 {
        let key = format!("key-{:05}", i).into_bytes();
        let val = format!("val-{:05}", i).into_bytes();
        writer.add(&key, &val);
        keys.push((key, val));
    }
    let file = writer.finish();

    let reader = SsTableReader::open(file).unwrap();
    assert!(reader.checkpoints() > 1, "expected multiple index checkpoints");

    for (k, v) in &keys {
        let got = reader.get(k).unwrap();
        assert_eq!(got.as_ref(), Some(v), "missing key {:?}", String::from_utf8_lossy(k));
    }

    assert_eq!(reader.get(b"aaa-not-present").unwrap(), None);
    assert_eq!(reader.get(b"zzz-not-present").unwrap(), None);
    assert_eq!(reader.get(b"key-00500x").unwrap(), None);
}

#[test]
fn get_returns_none_for_keys_deleted_before_flush() {
    let mut memtable = MemTable::new();
    memtable.set(b"alive".to_vec(), b"still here".to_vec());
    memtable.set(b"gone".to_vec(), b"will be deleted".to_vec());
    memtable.delete(b"gone".to_vec());

    let reader = SsTableReader::open(memtable.flush(20, 7)).unwrap();
    assert_eq!(reader.get(b"alive").unwrap(), Some(b"still here".to_vec()));
    assert_eq!(reader.get(b"gone").unwrap(), None);
}

#[test]
fn the_sections_lie_where_the_footer_says() {
    let file = small_table();
    let len = file.len();
    // two records of 4 + 1 + 4 + 1 bytes
    assert_eq!(file[..10].to_vec(), vec![1, 0, 0, 0, b'a', 1, 0, 0, 0, b'1']);
    assert_eq!(u64_at(&file, len - 32), 20);
    assert_eq!(u64_at(&file, len - 24), 16 + 3);
    assert_eq!(u64_at(&file, len - 16), 39);
    assert_eq!(u64_at(&file, len - 8), 4 + 1 + 8);
    assert_eq!(len, 20 + 19 + 13 + 32);
    assert_eq!(
        file[39..52].to_vec(),
        vec![1, 0, 0, 0, b'a', 0, 0, 0, 0, 0, 0, 0, 0]
    );
}

#[test]
fn the_index_has_an_entry_per_interval() {
    let mut writer = SsTableWriter::new(100, 7);
    // each record takes 1024 bytes
    for i in 0..9u8 {
        writer.add(&[i], &vec![0u8; 1024 - 9]);
    }
    let reader = SsTableReader::open(writer.finish()).unwrap();
    assert_eq!(reader.checkpoints(), 3);
}

#[test]
fn iter_gives_the_pairs_in_order() {
    let reader = SsTableReader::open(small_table()).unwrap();
    let mut it = reader.iter().unwrap();
    assert_eq!(it.next(), Some((b"a".to_vec(), b"1".to_vec())));
    assert_eq!(it.next(), Some((b"c".to_vec(), b"3".to_vec())));
    assert_eq!(it.next(), None);
    assert_eq!(it.next(), None);
    assert_eq!(reader.iter().unwrap().count(), 2);
    let mut rest = reader.iter().unwrap();
    rest.next();
    assert_eq!(rest.collect(), vec![(b"c".to_vec(), b"3".to_vec())]);
}

#[test]
fn a_stored_tombstone_is_a_value_like_any_other() {
    let mut writer = SsTableWriter::new(10, 7);
    writer.add(b"gone", b"__TOMBSTONE__");
    let reader = SsTableReader::open(writer.finish()).unwrap();
    assert_eq!(
        reader.get_raw(b"gone").unwrap(),
        Some(b"__TOMBSTONE__".to_vec())
    );
    assert_eq!(
        reader.get(b"gone").unwrap(),
        Some(b"__TOMBSTONE__".to_vec())
    );
}

#[test]
fn an_empty_index_may_lie_anywhere() {
    let mut file = SsTableWriter::new(10, 7).finish();
    let at = file.len() - 16;
    assert_eq!(u64_at(&file, at + 8), 0);
    file[at + 2] = 0xFF;
    let reader = SsTableReader::open(file).unwrap();
    assert_eq!(reader.checkpoints(), 0);
    assert_eq!(reader.get(b"a").unwrap(), None);

    // an index with entries may not
    let mut file = small_table();
    let at = file.len() - 16;
    file[at + 2] = 0xFF;
    assert!(matches!(SsTableReader::open(file), Err(SsTableError::Io)));
}

#[test]
fn an_empty_table_holds_nothing() {
    let reader = SsTableReader::open(SsTableWriter::new(0, 0).finish()).unwrap();
    assert_eq!(reader.get_raw(b"a").unwrap(), None);
    assert_eq!(reader.iter().unwrap().count(), 0);
    assert_eq!(reader.checkpoints(), 0);
}

#[test]
fn a_denying_filter_hides_what_is_stored() {
    let mut file = small_table();
    // clear the filter's bits
    for byte in &mut file[36..39] {
        *byte = 0;
    }
    let reader = SsTableReader::open(file).unwrap();
    assert_eq!(reader.get_raw(b"a").unwrap(), None);
    assert_eq!(reader.iter().unwrap().count(), 2);
}

#[test]
fn files_that_hold_no_table_are_refused() {
    assert!(matches!(
        SsTableReader::open(Vec::new()),
        Err(SsTableError::Io)
    ));
    assert!(matches!(
        SsTableReader::open(vec![0u8; 31]),
        Err(SsTableError::Io)
    ));
    // a footer that leads outside the file
    assert!(matches!(
        SsTableReader::open(vec![0xFFu8; 64]),
        Err(SsTableError::Io)
    ));
    // a footer that leads to no filter
    assert!(matches!(
        SsTableReader::open(vec![0u8; 64]),
        Err(SsTableError::Io)
    ));
    // an index that ends inside an entry
    let mut file = small_table();
    let at = file.len() - 8;
    file[at] -= 1;
    assert!(matches!(SsTableReader::open(file), Err(SsTableError::Io)));
}

#[test]
fn records_that_run_out_of_the_file_are_reported() {
    let mut file = small_table();
    // the length of the first key
    file[3] = 0xFF;
    let reader = SsTableReader::open(file).unwrap();
    assert!(matches!(reader.get(b"a"), Err(SsTableError::Io)));
    assert!(matches!(reader.get_raw(b"a"), Err(SsTableError::Io)));
    assert!(matches!(reader.iter(), Err(SsTableError::Io)));
}
