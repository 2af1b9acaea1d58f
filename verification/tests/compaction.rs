use tabula::compaction::{expected_keys, merge_sstables, open_inputs, CompactionError};
use tabula::memtable::MemTable;
use tabula::sstable::reader::SsTableReader;

// the file of a table in memory after the given writes; `None` is a deletion
fn build_sstable(ops: &[(&str, Option<&str>)]) -> Vec<u8> {
    let mut memtable = MemTable::new();
    for (key, value) in ops {
        match value {
            Some(v) => memtable.set(key.as_bytes().to_vec(), v.as_bytes().to_vec()),
            None => memtable.delete(key.as_bytes().to_vec()),
        }
    }
    memtable.flush_all(20, 7)
}

fn merge(files: Vec<Vec<u8>>) -> SsTableReader {
    let readers = open_inputs(files).unwrap();
    SsTableReader::open(merge_sstables(readers, 96, 7).unwrap()).unwrap()
}

#[test]
fn merge_sstables_dedupes_tombstones_and_keeps_newest() {
    // 6 L0 files, index 0 = most recently flushed
    let files = vec![
        build_sstable(&[("apple", Some("new-apple")), ("banana", None)]),
        build_sstable(&[("apple", Some("old-apple")), ("cherry", Some("cherry-val"))]),
        build_sstable(&[("banana", Some("old-banana")), ("date", Some("date-val"))]),
        build_sstable(&[("elderberry", Some("elderberry-val"))]),
        build_sstable(&[("fig", Some("fig-val"))]),
        build_sstable(&[("grape", Some("grape-val")), ("cherry", Some("old-cherry"))]),
    ];

    let merged = merge(files);

    // apple: newest value from file 0 wins over file 1's stale copy
    assert_eq!(merged.get(b"apple").unwrap(), Some(b"new-apple".to_vec()));
    // banana: file 0's tombstone is the newest record, so it's gone entirely
    assert_eq!(merged.get(b"banana").unwrap(), None);
    // cherry: file 1 (index 1) beats file 5 (index 5) as the more recent copy
    assert_eq!(merged.get(b"cherry").unwrap(), Some(b"cherry-val".to_vec()));
    // keys that only ever appeared once pass through unchanged
    assert_eq!(merged.get(b"date").unwrap(), Some(b"date-val".to_vec()));
    assert_eq!(
        merged.get(b"elderberry").unwrap(),
        Some(b"elderberry-val".to_vec())
    );
    assert_eq!(merged.get(b"fig").unwrap(), Some(b"fig-val".to_vec()));
    assert_eq!(merged.get(b"grape").unwrap(), Some(b"grape-val".to_vec()));

    // each surviving key appears exactly once in the merged output
    let all: Vec<(Vec<u8>, Vec<u8>)> = merged.iter().unwrap().collect();
    assert_eq!(
        all.len(),
        6,
        "expected exactly 6 surviving keys, got {all:?}"
    );

    let mut seen_keys: Vec<&Vec<u8>> = all.iter().map(|(k, _)| k).collect();
    let unique_count = {
        seen_keys.sort();
        seen_keys.dedup();
        seen_keys.len()
    };
    assert_eq!(unique_count, 6, "every surviving key must be unique");
}

#[test]
fn merging_nothing_gives_an_empty_table() {
    let merged = merge(Vec::new());
    assert_eq!(merged.iter().unwrap().count(), 0);
}

#[test]
fn a_later_tombstone_does_not_hide_an_earlier_value() {
    let merged = merge(vec![
        build_sstable(&[("k", Some("kept"))]),
        build_sstable(&[("k", None)]),
    ]);
    assert_eq!(merged.get(b"k").unwrap(), Some(b"kept".to_vec()));
}

#[test]
fn the_merge_is_sorted() {
    let merged = merge(vec![
        build_sstable(&[("b", Some("2")), ("d", Some("4"))]),
        build_sstable(&[("a", Some("1")), ("c", Some("3")), ("e", Some("5"))]),
    ]);
    let keys: Vec<Vec<u8>> = merged
        .iter()
        .unwrap()
        .collect()
        .into_iter()
        .map(|(k, _)| k)
        .collect();
    assert_eq!(
        keys,
        vec![
            b"a".to_vec(),
            b"b".to_vec(),
            b"c".to_vec(),
            b"d".to_vec(),
            b"e".to_vec()
        ]
    );
}

#[test]
fn expected_keys_counts_every_pair() {
    let readers = open_inputs(vec![
        build_sstable(&[("a", Some("1")), ("b", None)]),
        build_sstable(&[("a", Some("2"))]),
    ])
    .unwrap();
    assert_eq!(expected_keys(&readers).unwrap(), 3);
    let merged = merge_sstables(readers, 29, 7).unwrap();
    let count = SsTableReader::open(merged).unwrap().iter().unwrap().count();
    assert_eq!(count, 1);
}

#[test]
fn unreadable_inputs_are_reported() {
    assert!(matches!(
        open_inputs(vec![build_sstable(&[("a", Some("1"))]), Vec::new()]),
        Err(CompactionError::Io)
    ));

    let mut broken = build_sstable(&[("a", Some("1"))]);
    broken[3] = 0xFF;
    let readers = open_inputs(vec![build_sstable(&[("a", Some("1"))]), broken]).unwrap();
    assert!(matches!(expected_keys(&readers), Err(CompactionError::Io)));
    assert!(matches!(
        merge_sstables(readers, 20, 7),
        Err(CompactionError::Io)
    ));
}

#[test]
fn a_table_error_becomes_a_compaction_error() {
    let error = CompactionError::from(tabula::sstable::writer::SsTableError::Io);
    assert!(matches!(error, CompactionError::Io));
}
