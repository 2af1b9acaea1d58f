use std::collections::HashMap;
use std::path::PathBuf;

use tabula::compaction::{expected_keys, merge_sstables, open_inputs, CompactionError};
use tabula::levels::files_to_remove;
use tabula::lsm::{GetStep, Lsm, LsmError, DEFAULT_FLUSH_THRESHOLD};
use tabula::names::{l0_file_name, l1_file_name};
use tabula::sstable::reader::SsTableReader;
use tabula::sstable::writer::SsTableError;
use tabula::wal::{Wal, WalError};

// the engine with its files in memory
struct Store {
    lsm: Lsm,
    log: Wal,
    disk: HashMap<PathBuf, Vec<u8>>,
    clock: u128,
}

// a filter without bits has no hash functions either
fn hashes(keys: usize) -> usize {
    if keys == 0 {
        0
    } else {
        7
    }
}

impl Store {
    fn open() -> Store {
        Store::reopen(Vec::new())
    }

    fn reopen(log: Vec<u8>) -> Store {
        Store {
            lsm: Lsm::open(&log),
            log: Wal::open(log),
            disk: HashMap::new(),
            clock: 0,
        }
    }

    fn set(&mut self, key: Vec<u8>, value: Vec<u8>) -> Result<(), LsmError> {
        let entry = self.lsm.set(key, value);
        self.log.append(&entry);
        if self.lsm.commit(entry, Ok(()))? {
            self.flush()?;
        }
        Ok(())
    }

    fn delete(&mut self, key: Vec<u8>) -> Result<(), LsmError> {
        let entry = self.lsm.delete(key);
        self.log.append(&entry);
        if self.lsm.commit(entry, Ok(()))? {
            self.flush()?;
        }
        Ok(())
    }

    fn flush(&mut self) -> Result<(), LsmError> {
        self.clock += 1;
        let path = PathBuf::from(l0_file_name(self.clock));
        self.lsm.flush_memtable();
        let keys = self.lsm.flushing.as_ref().unwrap().len();
        let file = self.lsm.flushing_file(10 * keys, hashes(keys)).unwrap();
        self.disk.insert(path.clone(), file);
        self.lsm.install_table(path, Ok(()))
    }

    fn compact(&mut self) {
        self.clock += 1;
        let inputs = self.lsm.levels.compact_newest_first();
        let files: Vec<Vec<u8>> = inputs.iter().map(|p| self.disk[p].clone()).collect();
        let readers = open_inputs(files).unwrap();
        let n = expected_keys(&readers).unwrap();
        let output = PathBuf::from(l1_file_name(self.clock));
        let file = merge_sstables(readers, 10 * n, hashes(n)).unwrap();
        self.disk.insert(output.clone(), file);
        for path in files_to_remove(inputs, &Ok(())) {
            self.disk.remove(&path);
        }
        self.lsm.levels.finish_compaction(output, Ok(())).unwrap();
    }

    fn get(&self, key: &[u8]) -> Result<Option<Vec<u8>>, LsmError> {
        let mut step = self.lsm.get(key);
        loop {
            match step {
                GetStep::Done(answer) => return Ok(answer),
                GetStep::Probe(lookup) => {
                    let found = match self.disk.get(lookup.path()) {
                        Some(file) => match SsTableReader::open(file.clone()) {
                            Ok(reader) => reader.get_raw(key),
                            Err(e) => Err(e),
                        },
                        None => Err(SsTableError::Io),
                    };
                    step = lookup.resume(found)?;
                }
            }
        }
    }
}

#[test]
fn set_then_get_returns_the_value() {
    let mut lsm = Store::open();

    lsm.set(b"hello".to_vec(), b"world".to_vec()).unwrap();
    assert_eq!(lsm.get(b"hello").unwrap(), Some(b"world".to_vec()));
    assert_eq!(lsm.get(b"missing").unwrap(), None);
}

#[test]
fn delete_hides_the_key_even_before_any_flush() {
    let mut lsm = Store::open();

    lsm.set(b"hello".to_vec(), b"world".to_vec()).unwrap();
    lsm.delete(b"hello".to_vec()).unwrap();
    assert_eq!(lsm.get(b"hello").unwrap(), None);
}

#[test]
fn set_survives_a_flush_to_l0() {
    let mut lsm = Store::open();

    // exceed the flush threshold in one write so it flushes immediately
    lsm.set(b"big".to_vec(), vec![0u8; DEFAULT_FLUSH_THRESHOLD])
        .unwrap();
    lsm.set(b"after-flush".to_vec(), b"still works".to_vec())
        .unwrap();

    assert_eq!(
        lsm.get(b"big").unwrap(),
        Some(vec![0u8; DEFAULT_FLUSH_THRESHOLD])
    );
    assert_eq!(
        lsm.get(b"after-flush").unwrap(),
        Some(b"still works".to_vec())
    );

    assert_eq!(
        lsm.lsm.levels.levels[0].len(),
        1,
        "the oversized set should have triggered exactly one L0 flush"
    );
}

#[test]
fn delete_after_flush_shadows_the_flushed_value() {
    let mut lsm = Store::open();

    lsm.set(b"key".to_vec(), vec![0u8; DEFAULT_FLUSH_THRESHOLD])
        .unwrap();
    // "key" is now in an L0 table, not in memory
    lsm.delete(b"key".to_vec()).unwrap();

    assert_eq!(lsm.get(b"key").unwrap(), None);
}

#[test]
fn open_replays_the_wal_after_a_restart() {
    let log = {
        let mut lsm = Store::open();
        lsm.set(b"hello".to_vec(), b"world".to_vec()).unwrap();
        lsm.log.as_bytes().to_vec()
    };

    let reopened = Store::reopen(log);
    assert_eq!(reopened.get(b"hello").unwrap(), Some(b"world".to_vec()));
}

#[test]
fn a_restart_recovers_the_latest_writes_of_a_torn_log() {
    let mut store = Store::open();
    store.set(b"a".to_vec(), b"1".to_vec()).unwrap();
    store.set(b"b".to_vec(), b"2".to_vec()).unwrap();
    store.set(b"a".to_vec(), b"3".to_vec()).unwrap();
    store.delete(b"b".to_vec()).unwrap();
    store.flush().unwrap();
    let whole = store.log.as_bytes().len();
    store.set(b"c".to_vec(), b"torn".to_vec()).unwrap();
    let log = store.log.as_bytes();

    let reopened = Store::reopen(log[..log.len() - 1].to_vec());
    assert_eq!(reopened.get(b"a").unwrap(), Some(b"3".to_vec()));
    assert_eq!(reopened.get(b"b").unwrap(), None);
    assert_eq!(reopened.get(b"c").unwrap(), None);
    let reopened = Store::reopen(log[..whole].to_vec());
    assert_eq!(reopened.get(b"a").unwrap(), Some(b"3".to_vec()));
}

#[test]
fn newer_tables_are_read_before_older_ones() {
    let mut store = Store::open();
    store.set(b"k".to_vec(), b"old".to_vec()).unwrap();
    store.flush().unwrap();
    store.set(b"k".to_vec(), b"new".to_vec()).unwrap();
    store.flush().unwrap();
    assert_eq!(store.get(b"k").unwrap(), Some(b"new".to_vec()));
    assert_eq!(store.lsm.levels.levels[0].len(), 2);
}

#[test]
fn a_flushed_deletion_does_not_let_an_older_value_come_back() {
    let mut store = Store::open();
    store
        .set(b"key".to_vec(), vec![0u8; DEFAULT_FLUSH_THRESHOLD])
        .unwrap();
    store.delete(b"key".to_vec()).unwrap();
    assert_eq!(store.get(b"key").unwrap(), None);
    store
        .set(b"big".to_vec(), vec![0u8; DEFAULT_FLUSH_THRESHOLD])
        .unwrap();
    assert_eq!(store.lsm.levels.levels[0].len(), 2);
    assert_eq!(store.lsm.mem.len(), 0);
    assert_eq!(store.get(b"key").unwrap(), None);

    store.compact();
    assert_eq!(store.get(b"key").unwrap(), None);
    assert_eq!(
        store.get(b"big").unwrap(),
        Some(vec![0u8; DEFAULT_FLUSH_THRESHOLD])
    );
}

#[test]
fn reads_find_the_table_that_is_being_flushed() {
    let mut store = Store::open();
    store.set(b"gone".to_vec(), b"old".to_vec()).unwrap();
    store.flush().unwrap();
    store.set(b"x".to_vec(), b"1".to_vec()).unwrap();
    store.set(b"y".to_vec(), b"2".to_vec()).unwrap();
    store.delete(b"gone".to_vec()).unwrap();

    store.lsm.flush_memtable();
    store.set(b"y".to_vec(), b"3".to_vec()).unwrap();
    assert_eq!(store.get(b"x").unwrap(), Some(b"1".to_vec()));
    assert_eq!(store.get(b"y").unwrap(), Some(b"3".to_vec()));
    assert_eq!(store.get(b"gone").unwrap(), None);

    let full = store.lsm.flushing_file(30, 7).unwrap();
    store.disk.insert(PathBuf::from("second"), full);
    store
        .lsm
        .install_table(PathBuf::from("second"), Ok(()))
        .unwrap();
    assert!(store.lsm.flushing.is_none());
    assert_eq!(store.get(b"x").unwrap(), Some(b"1".to_vec()));
    assert_eq!(store.get(b"y").unwrap(), Some(b"3".to_vec()));
    assert_eq!(store.get(b"gone").unwrap(), None);
}

#[test]
fn a_compaction_keeps_the_newest_value() {
    let mut store = Store::open();
    for value in [b"first", b"later", b"newer", b"final"] {
        store.set(b"k".to_vec(), value.to_vec()).unwrap();
        store.set(value.to_vec(), b"1".to_vec()).unwrap();
        store.flush().unwrap();
    }
    assert_eq!(store.get(b"k").unwrap(), Some(b"final".to_vec()));
    store.compact();
    assert_eq!(store.get(b"k").unwrap(), Some(b"final".to_vec()));
    store.delete(b"k".to_vec()).unwrap();
    store.flush().unwrap();
    store.compact();
    assert_eq!(store.get(b"k").unwrap(), None);
    assert_eq!(store.get(b"first").unwrap(), Some(b"1".to_vec()));
}

#[test]
fn a_compaction_starts_when_the_first_level_is_full() {
    let mut lsm = Lsm::open(&[]);
    for name in ["a", "b", "c"] {
        lsm.install_table(PathBuf::from(name), Ok(())).unwrap();
    }
    assert!(lsm.start_compaction().is_none());
    assert_eq!(lsm.levels.levels[0].len(), 3);
    lsm.install_table(PathBuf::from("d"), Ok(())).unwrap();
    let inputs = lsm.start_compaction().unwrap();
    let expected: Vec<PathBuf> = ["d", "c", "b", "a"].iter().map(PathBuf::from).collect();
    assert_eq!(inputs, expected);
    assert!(lsm.levels.levels[0].is_empty());
    assert!(lsm.start_compaction().is_none());
}

#[test]
fn only_a_table_that_is_being_flushed_has_a_file() {
    let mut lsm = Lsm::open(&[]);
    assert!(lsm.flushing_file(10, 7).is_none());
    let entry = lsm.delete(b"k".to_vec());
    lsm.commit(entry, Ok(())).unwrap();
    lsm.flush_memtable();
    let reader = SsTableReader::open(lsm.flushing_file(10, 7).unwrap()).unwrap();
    assert_eq!(
        reader.get_raw(b"k").unwrap(),
        Some(b"__TOMBSTONE__".to_vec())
    );
}

#[test]
fn a_restart_brings_back_what_failures_took_out_of_reach() {
    let mut store = Store::open();
    store.set(b"a".to_vec(), b"1".to_vec()).unwrap();
    store.set(b"b".to_vec(), b"2".to_vec()).unwrap();
    store.lsm.flush_memtable();
    assert!(store
        .lsm
        .install_table(PathBuf::from("t"), Err(SsTableError::Io))
        .is_err());
    assert_eq!(store.get(b"a").unwrap(), None);
    // a key that is written again is read as written
    store.set(b"b".to_vec(), b"3".to_vec()).unwrap();
    assert_eq!(store.get(b"b").unwrap(), Some(b"3".to_vec()));

    for _ in 0..4 {
        store.set(b"c".to_vec(), b"4".to_vec()).unwrap();
        store.flush().unwrap();
    }
    let inputs = store.lsm.start_compaction().unwrap();
    let failed = Err(CompactionError::Io);
    assert!(files_to_remove(inputs, &failed).is_empty());
    assert!(store
        .lsm
        .levels
        .finish_compaction(PathBuf::from("m"), failed)
        .is_err());
    assert_eq!(store.get(b"c").unwrap(), None);

    let store = Store::reopen(store.log.as_bytes().to_vec());
    assert_eq!(store.get(b"a").unwrap(), Some(b"1".to_vec()));
    assert_eq!(store.get(b"b").unwrap(), Some(b"3".to_vec()));
    assert_eq!(store.get(b"c").unwrap(), Some(b"4".to_vec()));
}

#[test]
fn a_history_of_writes_flushes_compactions_and_crashes_keeps_the_latest_writes() {
    let mut store = Store::open();
    let mut expected: HashMap<Vec<u8>, Vec<u8>> = HashMap::new();
    let mut seed: u32 = 7;
    for round in 0..600u32 {
        seed = seed.wrapping_mul(1664525).wrapping_add(1013904223);
        let key = vec![(seed >> 24) as u8 % 11];
        match (seed >> 16) % 10 {
            0..=4 => {
                let value = round.to_le_bytes().to_vec();
                store.set(key.clone(), value.clone()).unwrap();
                expected.insert(key, value);
            }
            5..=6 => {
                store.delete(key.clone()).unwrap();
                expected.remove(&key);
            }
            7 => store.flush().unwrap(),
            8 => {
                if store.lsm.levels.needs_compaction() {
                    store.compact();
                }
            }
            _ => {
                // a crash in the middle of an append
                let mut log = store.log.as_bytes().to_vec();
                let torn = store.lsm.set(key, b"torn".to_vec()).encode();
                log.extend_from_slice(&torn[..(seed as usize >> 8) % torn.len()]);
                let whole = Wal::replayed_len(&log);
                log.truncate(whole);
                store = Store::reopen(log);
            }
        }
        for k in 0..11u8 {
            assert_eq!(store.get(&[k]).unwrap(), expected.get(&vec![k]).cloned());
        }
    }
}

#[test]
fn a_flush_changes_no_read() {
    let mut store = Store::open();
    store.set(b"x".to_vec(), b"1".to_vec()).unwrap();
    store.set(b"y".to_vec(), b"2".to_vec()).unwrap();
    store.delete(b"z".to_vec()).unwrap();
    store.flush().unwrap();
    assert_eq!(store.lsm.mem.len(), 0);
    assert_eq!(store.get(b"x").unwrap(), Some(b"1".to_vec()));
    assert_eq!(store.get(b"y").unwrap(), Some(b"2".to_vec()));
    assert_eq!(store.get(b"z").unwrap(), None);
}

#[test]
fn a_compaction_changes_no_read_of_keys_in_one_file() {
    let mut store = Store::open();
    for i in 0..4u8 {
        store.set(vec![i], vec![i, i]).unwrap();
        store.flush().unwrap();
    }
    assert!(store.lsm.levels.needs_compaction());
    store.compact();
    assert!(!store.lsm.levels.needs_compaction());
    for i in 0..4u8 {
        assert_eq!(store.get(&[i]).unwrap(), Some(vec![i, i]));
    }
    // a newer flush wins over the merged table
    store.set(vec![0], b"newer".to_vec()).unwrap();
    store.flush().unwrap();
    assert_eq!(store.get(&[0]).unwrap(), Some(b"newer".to_vec()));
    store.compact();
    assert_eq!(store.get(&[0]).unwrap(), Some(b"newer".to_vec()));
    assert_eq!(store.get(&[3]).unwrap(), Some(vec![3, 3]));
}

#[test]
fn tables_below_the_second_level_are_read_last() {
    let mut store = Store::open();
    let mut deep = tabula::memtable::MemTable::new();
    deep.set(b"k".to_vec(), b"deep".to_vec());
    store.disk.insert(PathBuf::from("deep"), deep.flush(10, 7));
    store.lsm.levels.levels = vec![Vec::new(), Vec::new(), vec![PathBuf::from("deep")]];
    assert_eq!(store.get(b"k").unwrap(), Some(b"deep".to_vec()));
    store.set(b"k".to_vec(), b"top".to_vec()).unwrap();
    store.flush().unwrap();
    assert_eq!(store.get(b"k").unwrap(), Some(b"top".to_vec()));
}

#[test]
fn a_write_that_is_not_logged_changes_nothing() {
    let mut lsm = Lsm::open(&[]);
    let entry = lsm.set(b"k".to_vec(), b"v".to_vec());
    assert!(matches!(
        lsm.commit(entry, Err(WalError::Error)),
        Err(LsmError::Io)
    ));
    assert_eq!(lsm.mem.len(), 0);
    let entry = lsm.delete(b"k".to_vec());
    assert!(matches!(
        lsm.commit(entry, Err(WalError::Checksum)),
        Err(LsmError::Io)
    ));
    assert_eq!(lsm.mem.len(), 0);
}

#[test]
fn commit_asks_for_a_flush_at_the_threshold() {
    let mut lsm = Lsm::open(&[]);
    lsm.flush_threshold = 4;
    let entry = lsm.set(b"k".to_vec(), b"12".to_vec());
    assert!(!lsm.commit(entry, Ok(())).unwrap());
    let entry = lsm.set(b"k".to_vec(), b"123".to_vec());
    assert!(lsm.commit(entry, Ok(())).unwrap());
    lsm.flush_memtable();
    assert_eq!(lsm.flushing.as_ref().unwrap().len(), 1);
    assert_eq!(lsm.mem.len(), 0);
}

#[test]
fn a_table_that_was_not_written_is_not_installed() {
    let mut lsm = Lsm::open(&[]);
    let result = lsm.install_table(PathBuf::from("t"), Err(SsTableError::Io));
    assert!(matches!(result, Err(LsmError::Io)));
    assert!(lsm.levels.levels.is_empty());
    lsm.install_table(PathBuf::from("t"), Ok(())).unwrap();
    assert_eq!(lsm.levels.levels, vec![vec![PathBuf::from("t")]]);
}

#[test]
fn a_table_that_cannot_be_read_fails_the_read() {
    let mut store = Store::open();
    store.set(b"k".to_vec(), b"v".to_vec()).unwrap();
    store.flush().unwrap();
    store.disk.clear();
    assert!(matches!(store.get(b"k"), Err(LsmError::Io)));
    // memory is read first
    store.set(b"m".to_vec(), b"1".to_vec()).unwrap();
    assert_eq!(store.get(b"m").unwrap(), Some(b"1".to_vec()));
}

#[test]
fn errors_of_the_log_and_of_tables_become_engine_errors() {
    assert!(matches!(LsmError::from(WalError::Checksum), LsmError::Io));
    assert!(matches!(LsmError::from(SsTableError::Io), LsmError::Io));
}

#[test]
fn file_names_carry_level_and_stamp() {
    assert_eq!(l0_file_name(0), "l0_0.sst");
    assert_eq!(l0_file_name(1700000000123456789), "l0_1700000000123456789.sst");
    assert_eq!(l1_file_name(1209876543), "l1_1209876543.sst");
    assert_eq!(
        l1_file_name(u128::MAX),
        "l1_340282366920938463463374607431768211455.sst"
    );
}
