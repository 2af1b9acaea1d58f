//! A small log-structured merge tree: a sorted in-memory table, a checksummed
//! write-ahead log, immutable sorted tables with a sparse index and a Bloom
//! filter, a merging compaction, and the engine that ties them together.
//!
//! Nothing here touches the disk. Files enter as byte strings and leave as byte
//! strings; the caller performs the reads, writes and renames and reports how
//! they went.
#![allow(unused_imports)]

pub mod encoding;
pub mod order;
pub mod types;
pub mod wal;
pub mod polynomial;
pub mod bloom;
pub mod pairs;
pub mod memtable;
pub mod sstable;
pub mod compaction;
pub mod levels;
pub mod lsm;
pub mod history;
pub mod laws;
pub mod names;
