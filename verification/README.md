# Tabula

A small LSM tree storage engine, verified with Verus.

- `src/memtable.rs`: the sorted table in memory that every write reaches first.
  A deletion is stored as a tombstone, which goes into the table file as well, so
  that no older value comes back.
- `src/wal.rs`: the write-ahead log. Entries carry a CRC-32; a replay stops at the
  first entry that is torn or altered, and the log is cut there before it grows
  again.
- `src/bloom.rs`: the Bloom filter of a table's keys.
- `src/sstable/`: the file format of sorted tables, its writer and its reader, and
  the proof that a table gives back what was written into it.
- `src/compaction.rs`: the merge of tables.
- `src/levels.rs`, `src/names.rs`: which table files there are and what they are
  called.
- `src/lsm.rs`: the engine. It works in steps: each says what is to be read or
  written, and goes on with the outcome.
- `src/laws.rs`: what holds of reads through writes, flushes, compactions and
  restarts.
- `src/history.rs`: that after any history of these a read gives the latest write,
  and what failures can put out of reach until a restart.
- `src/types.rs`, `src/order.rs`, `src/pairs.rs`, `src/encoding.rs`: the tombstone,
  the order of keys, sorted lists of pairs, little-endian numbers.

The library touches no file. `app/` does: it reads and writes the log and the
table files, takes the locks, compacts in a thread of its own, and computes filter
sizes in floating point.
