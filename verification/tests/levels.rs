use std::collections::HashMap;
use std::path::PathBuf;

use tabula::compaction::{expected_keys, merge_sstables, open_inputs, CompactionError};
use tabula::levels::{files_to_remove, LevelManager};
use tabula::memtable::MemTable;
use tabula::sstable::reader::SsTableReader;

fn build_l0_file(
    disk: &mut HashMap<PathBuf, Vec<u8>>,
    name: &str,
    key: &str,
    value: &str,
) -> PathBuf {
    let path = PathBuf::from(format!("tabula_levels_test_{name}.sst"));
    let mut memtable = MemTable::new();
    memtable.set(key.as_bytes().to_vec(), value.as_bytes().to_vec());
    disk.insert(path.clone(), memtable.flush(10, 7));
    path
}

#[test]
fn needs_compaction_true_once_l0_hits_threshold() {
    let mut disk = HashMap::new();
    let mut manager = LevelManager::new();
    assert!(!manager.needs_compaction());

    for i in 0..3 {
        manager.add_l0_file(build_l0_file(&mut disk, &format!("threshold_{i}"), "k", "v"));
    }
    assert!(!manager.needs_compaction(), "3 files should not trigger yet");

    manager.add_l0_file(build_l0_file(&mut disk, "threshold_3", "k", "v"));
    assert!(manager.needs_compaction(), "4 files should trigger");
}

#[test]
fn compact_merges_l0_into_l1_and_clears_l0() {
    let mut disk = HashMap::new();
    let mut manager = LevelManager::new();
    manager.add_l0_file(build_l0_file(&mut disk, "compact_0", "apple", "newest"));
    manager.add_l0_file(build_l0_file(&mut disk, "compact_1", "apple", "stale"));
    manager.add_l0_file(build_l0_file(&mut disk, "compact_2", "banana", "banana-val"));
    manager.add_l0_file(build_l0_file(&mut disk, "compact_3", "cherry", "cherry-val"));

    let inputs = manager.compact();
    let files: Vec<Vec<u8>> = inputs.iter().map(|p| disk[p].clone()).collect();
    let readers = open_inputs(files).unwrap();
    assert_eq!(expected_keys(&readers).unwrap(), 4);
    let output = PathBuf::from("l1_1.sst");
    let merged = merge_sstables(readers, 39, 7).map(|file| {
        disk.insert(output.clone(), file);
    });
    manager.finish_compaction(output, merged).unwrap();

    assert!(manager.levels[0].is_empty(), "L0 must be empty after compaction");
    assert_eq!(manager.levels[1].len(), 1, "L1 must hold exactly one merged file");

    let l1_path = &manager.levels[1][0];
    let reader = SsTableReader::open(disk[l1_path].clone()).unwrap();
    assert_eq!(reader.get(b"apple").unwrap(), Some(b"newest".to_vec()));
    assert_eq!(reader.get(b"banana").unwrap(), Some(b"banana-val".to_vec()));
    assert_eq!(reader.get(b"cherry").unwrap(), Some(b"cherry-val".to_vec()));
}

#[test]
fn compact_takes_both_levels_and_leaves_the_rest() {
    let mut manager = LevelManager {
        levels: vec![
            vec![PathBuf::from("a"), PathBuf::from("b")],
            vec![PathBuf::from("c")],
            vec![PathBuf::from("d")],
        ],
    };
    let inputs = manager.compact();
    assert_eq!(
        inputs,
        vec![PathBuf::from("a"), PathBuf::from("b"), PathBuf::from("c")]
    );
    assert_eq!(
        manager.levels,
        vec![Vec::new(), Vec::new(), vec![PathBuf::from("d")]]
    );
    manager.finish_compaction(PathBuf::from("e"), Ok(())).unwrap();
    assert_eq!(manager.levels[1], vec![PathBuf::from("e")]);
}

#[test]
fn the_newest_files_can_come_first() {
    let mut manager = LevelManager {
        levels: vec![
            vec![PathBuf::from("a"), PathBuf::from("b"), PathBuf::from("c")],
            vec![PathBuf::from("d"), PathBuf::from("e")],
        ],
    };
    let inputs = manager.compact_newest_first();
    let expected: Vec<PathBuf> = ["c", "b", "a", "d", "e"].iter().map(PathBuf::from).collect();
    assert_eq!(inputs, expected);
    assert_eq!(manager.levels, vec![Vec::<PathBuf>::new(), Vec::new()]);
}

#[test]
fn inputs_are_removed_only_after_a_merge() {
    let inputs = vec![PathBuf::from("a"), PathBuf::from("b")];
    assert_eq!(files_to_remove(inputs.clone(), &Ok(())), inputs);
    assert!(files_to_remove(inputs, &Err(CompactionError::Io)).is_empty());
}

#[test]
fn a_failed_compaction_adds_no_file() {
    let mut manager = LevelManager::new();
    manager.add_l0_file(PathBuf::from("a"));
    manager.compact();
    let result = manager.finish_compaction(PathBuf::from("e"), Err(CompactionError::Io));
    assert!(matches!(result, Err(CompactionError::Io)));
    assert_eq!(manager.levels.len(), 2);
    assert!(manager.levels.iter().all(|level| level.is_empty()));

    let result =
        manager.finish_compaction(PathBuf::from("e"), Err(CompactionError::EmptySsTable));
    assert!(matches!(result, Err(CompactionError::EmptySsTable)));
}
