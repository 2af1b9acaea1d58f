//! What holds of the engine as a whole: reads give back the latest writes,
//! through flushes, compactions and restarts.

use std::path::PathBuf;

use vstd::prelude::*;

use crate::compaction::{
    law_merge_drops_tombstones, law_merge_keeps_newest, merged, newest, seen_of,
};
use crate::levels::{
    compaction_inputs, level, newest_first, with_l0_file, with_l1_file, without_inputs,
};
use crate::lsm::{
    applied, applied_all, key_of, layered, read_order, resumed, started, value_of, LsmError, Step,
};
use crate::pairs::{
    lemma_with_pair, lookup, strictly_sorted, Pair,
};
use crate::sstable::laws::{law_table_gives_back_its_pairs, storable};
use crate::sstable::reader::opened;
use crate::sstable::table_file;
use crate::sstable::writer::SsTableError;
use crate::types::{tombstone, visible};
use crate::wal::{
    all_loggable, encoded, law_append_extends_replay, law_replay_survives_torn_tail, log_of,
    loggable, replayed, Op,
};

verus! {

/// The contents of the table files. Different paths stand for different files.
pub type Disk = Map<PathBuf, Seq<u8>>;

/// What a lookup in a table file finds.
pub open spec fn probed(disk: Disk, path: PathBuf, key: Seq<u8>) -> Result<
    Option<Seq<u8>>,
    SsTableError,
> {
    if disk.contains_key(path) && opened(disk[path]) is Some {
        (opened(disk[path])->0).stored(key)
    } else {
        Err(SsTableError::Io)
    }
}

/// What the first of the files that stores anything for the key shows of it.
pub open spec fn searched(paths: Seq<PathBuf>, disk: Disk, key: Seq<u8>) -> Result<
    Option<Seq<u8>>,
    LsmError,
>
    decreases paths.len(),
{
    if paths.len() == 0 {
        Ok(None)
    } else {
        match probed(disk, paths[0], key) {
            Ok(Some(value)) => Ok(visible(value)),
            Ok(None) => searched(paths.skip(1), disk, key),
            Err(_) => Err(LsmError::Io),
        }
    }
}

/// What a read of the key gives: what the table in memory shows, if it has the
/// key, and otherwise what the table files show.
pub open spec fn read(
    mem: Map<Seq<u8>, Seq<u8>>,
    files: Seq<Seq<PathBuf>>,
    disk: Disk,
    key: Seq<u8>,
) -> Result<Option<Seq<u8>>, LsmError> {
    if mem.contains_key(key) {
        Ok(visible(mem[key]))
    } else {
        searched(read_order(files), disk, key)
    }
}

/// What a read gives that has come to the given step and goes on from there.
pub open spec fn completed(step: Step, disk: Disk, key: Seq<u8>) -> Result<
    Option<Seq<u8>>,
    LsmError,
> {
    match step {
        Step::Done(answer) => Ok(answer),
        Step::Probe(paths) => searched(paths, disk, key),
    }
}

/// A read, taken step by step, gives what the memory and the files hold.
pub proof fn law_read_is_its_steps(
    mem: Map<Seq<u8>, Seq<u8>>,
    files: Seq<Seq<PathBuf>>,
    disk: Disk,
    key: Seq<u8>,
    paths: Seq<PathBuf>,
)
    requires
        paths.len() > 0,
    ensures
        completed(started(mem, files, key), disk, key) == read(mem, files, disk, key),
        completed(Step::Probe(paths), disk, key) == (match resumed(
            paths,
            probed(disk, paths[0], key),
        ) {
            Ok(step) => completed(step, disk, key),
            Err(e) => Err(e),
        }),
{
    let rest = paths.skip(1);
    if rest.len() == 0 {
        assert(searched(rest, disk, key) == Ok::<Option<Seq<u8>>, LsmError>(None));
    }
}

/// A write is read back, and reads of other keys are not affected by it.
pub proof fn law_write_is_read_back(
    entries: Seq<Pair>,
    flushing: Option<Seq<Pair>>,
    op: Op,
    files: Seq<Seq<PathBuf>>,
    disk: Disk,
    key: Seq<u8>,
)
    requires
        strictly_sorted(entries),
    ensures
        read(layered(applied(entries, op), flushing), files, disk, key) == (if key == key_of(op) {
            Ok::<Option<Seq<u8>>, LsmError>(visible(value_of(op)))
        } else {
            read(layered(entries, flushing), files, disk, key)
        }),
{
    lemma_with_pair(entries, key_of(op), value_of(op));
}

/// A value that was set is what a read gives, whatever older values there are.
pub proof fn law_set_is_read_back(
    entries: Seq<Pair>,
    flushing: Option<Seq<Pair>>,
    key: Seq<u8>,
    value: Seq<u8>,
    files: Seq<Seq<PathBuf>>,
    disk: Disk,
)
    requires
        strictly_sorted(entries),
        value != tombstone(),
    ensures
        read(layered(applied(entries, Op::Put { key, value }), flushing), files, disk, key)
            == Ok::<Option<Seq<u8>>, LsmError>(Some(value)),
{
    law_write_is_read_back(entries, flushing, Op::Put { key, value }, files, disk, key);
}

/// A deleted key is not found, even if older tables hold values of it.
pub proof fn law_delete_hides_older_values(
    entries: Seq<Pair>,
    flushing: Option<Seq<Pair>>,
    key: Seq<u8>,
    files: Seq<Seq<PathBuf>>,
    disk: Disk,
)
    requires
        strictly_sorted(entries),
    ensures
        read(layered(applied(entries, Op::Delete { key }), flushing), files, disk, key) == Ok::<
            Option<Seq<u8>>,
            LsmError,
        >(None),
{
    law_write_is_read_back(entries, flushing, Op::Delete { key }, files, disk, key);
}

/// Files that are not touched are read as before.
proof fn lemma_searched_same(paths: Seq<PathBuf>, a: Disk, b: Disk, key: Seq<u8>)
    requires
        forall|i: int|
            0 <= i < paths.len() ==> a.contains_key(#[trigger] paths[i]) == b.contains_key(
                paths[i],
            ) && a[paths[i]] == b[paths[i]],
    ensures
        searched(paths, a, key) == searched(paths, b, key),
    decreases paths.len(),
{
    if paths.len() > 0 {
        let rest = paths.skip(1);
        assert(paths[0] == paths[0]);
        assert forall|i: int| 0 <= i < rest.len() implies a.contains_key(#[trigger] rest[i])
            == b.contains_key(rest[i]) && a[rest[i]] == b[rest[i]] by {
            assert(rest[i] == paths[i + 1]);
        }
        lemma_searched_same(rest, a, b, key);
    }
}

/// A new file of the first level is the first that a read looks at.
pub proof fn lemma_read_order_of_new_file(files: Seq<Seq<PathBuf>>, path: PathBuf)
    ensures
        read_order(with_l0_file(files, path)) == seq![path] + read_order(files),
{
    let after = with_l0_file(files, path);
    if files.len() == 0 {
        assert(after[0].reverse() =~= seq![path]);
        assert(after.skip(1) =~= Seq::<Seq<PathBuf>>::empty());
        assert(read_order(after) =~= seq![path] + read_order(files));
    } else {
        assert(after[0].reverse() =~= seq![path] + files[0].reverse());
        assert(after.skip(1) =~= files.skip(1));
        assert(read_order(after) =~= seq![path] + read_order(files));
    }
}

/// A flush, whose file is new, changes the read of no key: neither when the table is
/// set aside nor when its file takes its place, whatever was written in between.
pub proof fn law_flush_keeps_reads(
    entries: Seq<Pair>,
    full: Seq<Pair>,
    files: Seq<Seq<PathBuf>>,
    disk: Disk,
    path: PathBuf,
    m: nat,
    k: nat,
    key: Seq<u8>,
)
    requires
        storable(full, m, k),
        !read_order(files).contains(path),
    ensures
        read(layered(Seq::empty(), Some(full)), files, disk, key) == read(
            layered(full, None),
            files,
            disk,
            key,
        ),
        read(
            layered(entries, None),
            with_l0_file(files, path),
            disk.insert(path, table_file(full, m, k)),
            key,
        ) == read(layered(entries, Some(full)), files, disk, key),
{
    let after_disk = disk.insert(path, table_file(full, m, k));
    law_table_gives_back_its_pairs(full, m, k, key);
    lemma_read_order_of_new_file(files, path);
    let order = read_order(with_l0_file(files, path));
    assert(order.skip(1) =~= read_order(files));
    let old_order = read_order(files);
    assert forall|i: int| 0 <= i < old_order.len() implies after_disk.contains_key(
        #[trigger] old_order[i],
    ) == disk.contains_key(old_order[i]) && after_disk[old_order[i]] == disk[old_order[i]] by {
        assert(old_order.contains(old_order[i]));
    }
    lemma_searched_same(old_order, after_disk, disk, key);
}

/// A deletion outlives the flush of its table: whatever older files hold of the key,
/// it is not found, until it is written again.
pub proof fn law_flushed_deletion_stays_hidden(
    entries: Seq<Pair>,
    full: Seq<Pair>,
    files: Seq<Seq<PathBuf>>,
    disk: Disk,
    path: PathBuf,
    m: nat,
    k: nat,
    key: Seq<u8>,
)
    requires
        storable(full, m, k),
        !read_order(files).contains(path),
        lookup(full, key) == Some(tombstone()),
        lookup(entries, key) is None,
    ensures
        read(
            layered(entries, None),
            with_l0_file(files, path),
            disk.insert(path, table_file(full, m, k)),
            key,
        ) == Ok::<Option<Seq<u8>>, LsmError>(None),
{
    law_flush_keeps_reads(entries, full, files, disk, path, m, k, key);
}

/// The value that the last operation on the key wrote.
pub open spec fn latest(ops: Seq<Op>, key: Seq<u8>) -> Option<Seq<u8>>
    decreases ops.len(),
{
    if ops.len() == 0 {
        None
    } else if key_of(ops.last()) == key {
        Some(value_of(ops.last()))
    } else {
        latest(ops.drop_last(), key)
    }
}

/// The table in memory, built from a list of operations, is sorted and holds of
/// every key what its last operation wrote.
pub proof fn law_memory_holds_latest_writes(ops: Seq<Op>, key: Seq<u8>)
    ensures
        strictly_sorted(applied_all(ops)),
        lookup(applied_all(ops), key) == latest(ops, key),
    decreases ops.len(),
{
    if ops.len() > 0 {
        let front = ops.drop_last();
        law_memory_holds_latest_writes(front, key);
        lemma_with_pair(applied_all(front), key_of(ops.last()), value_of(ops.last()));
    }
}

/// After a restart every read gives the latest logged write, even if the crash
/// cut off the last entry of the log.
pub proof fn law_restart_recovers_latest_writes(
    ops: Seq<Op>,
    torn: Op,
    cut: int,
    disk: Disk,
    key: Seq<u8>,
)
    requires
        all_loggable(ops),
        loggable(torn),
        0 <= cut < encoded(torn).len(),
    ensures
        ({
            let log = log_of(ops) + encoded(torn).take(cut);
            read(layered(applied_all(replayed(log)), None), Seq::empty(), disk, key) == Ok::<
                Option<Seq<u8>>,
                LsmError,
            >(seen_of(latest(ops, key)))
        }),
        read(layered(applied_all(replayed(log_of(ops))), None), Seq::empty(), disk, key) == Ok::<
            Option<Seq<u8>>,
            LsmError,
        >(seen_of(latest(ops, key))),
{
    law_replay_survives_torn_tail(ops, torn, cut);
    law_append_extends_replay(ops, torn);
    law_memory_holds_latest_writes(ops, key);
}

/// The file holds the sorted list `s` and leads every key to its value.
pub open spec fn holds(disk: Disk, path: PathBuf, s: Seq<Pair>) -> bool {
    &&& disk.contains_key(path)
    &&& opened(disk[path]) is Some
    &&& strictly_sorted(s)
    &&& (opened(disk[path])->0).pairs() == Some(s)
    &&& forall|key: Seq<u8>| #[trigger]
        (opened(disk[path])->0).stored(key) == Ok::<Option<Seq<u8>>, SsTableError>(lookup(s, key))
}

/// The files hold the lists, one each.
pub open spec fn all_hold(disk: Disk, paths: Seq<PathBuf>, streams: Seq<Seq<Pair>>) -> bool {
    &&& paths.len() == streams.len()
    &&& forall|i: int| 0 <= i < paths.len() ==> holds(disk, #[trigger] paths[i], streams[i])
}

/// A file that was written from a storable list holds it.
pub proof fn law_written_file_holds_its_list(
    disk: Disk,
    path: PathBuf,
    s: Seq<Pair>,
    m: nat,
    k: nat,
)
    requires
        storable(s, m, k),
    ensures
        holds(disk.insert(path, table_file(s, m, k)), path, s),
{
    law_table_gives_back_its_pairs(s, m, k, Seq::empty());
    let table = opened(table_file(s, m, k))->0;
    assert forall|key: Seq<u8>| #[trigger] table.stored(key) == Ok::<
        Option<Seq<u8>>,
        SsTableError,
    >(lookup(s, key)) by {
        law_table_gives_back_its_pairs(s, m, k, key);
    }
}

/// Searching files that hold lists gives the value in the first list with the key;
/// without one, the search goes on behind them.
pub proof fn lemma_search_lists(
    disk: Disk,
    paths: Seq<PathBuf>,
    streams: Seq<Seq<Pair>>,
    behind: Seq<PathBuf>,
    key: Seq<u8>,
)
    requires
        all_hold(disk, paths, streams),
    ensures
        searched(paths + behind, disk, key) == (match newest(streams, key) {
            Some(value) => Ok::<Option<Seq<u8>>, LsmError>(visible(value)),
            None => searched(behind, disk, key),
        }),
    decreases paths.len(),
{
    if paths.len() == 0 {
        assert(paths + behind =~= behind);
    } else {
        let all = paths + behind;
        assert(holds(disk, paths[0], streams[0]));
        assert(probed(disk, all[0], key) == Ok::<Option<Seq<u8>>, SsTableError>(
            lookup(streams[0], key),
        ));
        let rest = paths.skip(1);
        let lists = streams.skip(1);
        assert forall|i: int| 0 <= i < rest.len() implies holds(disk, #[trigger] rest[i], lists[i]) by {
            assert(rest[i] == paths[i + 1]);
            assert(lists[i] == streams[i + 1]);
        }
        lemma_search_lists(disk, rest, lists, behind, key);
        assert(all.skip(1) =~= rest + behind);
    }
}

/// The files below the second level, in the order in which they are read.
pub open spec fn lower_files(files: Seq<Seq<PathBuf>>) -> Seq<PathBuf> {
    if files.len() < 2 {
        Seq::empty()
    } else {
        files.skip(2).flatten()
    }
}

/// A read looks at the first level backwards, then at the second, then at what
/// lies below.
pub proof fn lemma_read_order_by_level(files: Seq<Seq<PathBuf>>)
    ensures
        read_order(files) == level(files, 0).reverse() + level(files, 1) + lower_files(files),
{
    if files.len() == 0 {
        assert(level(files, 0).reverse() + level(files, 1) + lower_files(files) =~= Seq::<
            PathBuf,
        >::empty());
    } else if files.len() == 1 {
        assert(files.skip(1) =~= Seq::<Seq<PathBuf>>::empty());
        assert(read_order(files) =~= level(files, 0).reverse() + level(files, 1) + lower_files(
            files,
        ));
    } else {
        let below = files.skip(1);
        assert(below.first() == files[1]);
        assert(below.drop_first() =~= files.skip(2));
        assert(read_order(files) =~= level(files, 0).reverse() + level(files, 1) + lower_files(
            files,
        ));
    }
}

/// After a compaction a read looks at the merged file first, then at what lies
/// below.
pub proof fn lemma_read_order_compacted(files: Seq<Seq<PathBuf>>, output: PathBuf)
    ensures
        read_order(with_l1_file(without_inputs(files), output)) == seq![output] + lower_files(
            files,
        ),
{
    let after = with_l1_file(without_inputs(files), output);
    lemma_read_order_by_level(after);
    assert(level(after, 0).reverse() =~= Seq::<PathBuf>::empty());
    assert(level(after, 1) =~= seq![output]);
    if files.len() < 2 {
        assert(after.skip(2) =~= Seq::<Seq<PathBuf>>::empty());
    } else {
        assert(after.skip(2) =~= files.skip(2));
    }
    assert(read_order(after) =~= seq![output] + lower_files(files));
}

/// The files below are the same on both disks.
pub open spec fn same_files(paths: Seq<PathBuf>, a: Disk, b: Disk) -> bool {
    forall|i: int|
        0 <= i < paths.len() ==> a.contains_key(#[trigger] paths[i]) == b.contains_key(paths[i])
            && a[paths[i]] == b[paths[i]]
}

/// After a compaction a search gives what the first input with the key shows of it,
/// in the order in which the inputs were merged; if no input shows anything, it
/// gives what lies below.
pub proof fn law_compaction_keeps_first_input(
    files: Seq<Seq<PathBuf>>,
    inputs: Seq<PathBuf>,
    disk: Disk,
    after: Disk,
    streams: Seq<Seq<Pair>>,
    output: PathBuf,
    m: nat,
    k: nat,
    key: Seq<u8>,
)
    requires
        inputs == compaction_inputs(files) || inputs == newest_first(files),
        all_hold(disk, inputs, streams),
        storable(merged(streams), m, k),
        after.contains_key(output),
        after[output] == table_file(merged(streams), m, k),
        same_files(lower_files(files), disk, after),
    ensures
        searched(read_order(with_l1_file(without_inputs(files), output)), after, key) == (
        match seen_of(newest(streams, key)) {
            Some(value) => Ok::<Option<Seq<u8>>, LsmError>(Some(value)),
            None => searched(lower_files(files), disk, key),
        }),
{
    assert forall|i: int| 0 <= i < streams.len() implies strictly_sorted(#[trigger] streams[i]) by {
        assert(holds(disk, inputs[i], streams[i]));
    }
    law_merge_keeps_newest(streams);
    law_table_gives_back_its_pairs(merged(streams), m, k, key);
    lemma_read_order_compacted(files, output);
    let order = read_order(with_l1_file(without_inputs(files), output));
    assert(order[0] == output);
    assert(order.skip(1) =~= lower_files(files));
    lemma_searched_same(lower_files(files), disk, after, key);
    law_merge_drops_tombstones(streams);
    let found = lookup(merged(streams), key);
    assert(found == seen_of(newest(streams, key)));
    if found is Some {
        assert(visible(found->0) == Some(found->0));
    }
}

/// A compaction whose inputs are merged from the newest to the oldest changes no
/// read. A tombstone that the merge keeps is dropped, so nothing below the merged
/// levels may hold a key that is deleted in them.
pub proof fn law_compaction_keeps_reads(
    mem: Map<Seq<u8>, Seq<u8>>,
    files: Seq<Seq<PathBuf>>,
    disk: Disk,
    after: Disk,
    streams: Seq<Seq<Pair>>,
    output: PathBuf,
    m: nat,
    k: nat,
    key: Seq<u8>,
)
    requires
        all_hold(disk, newest_first(files), streams),
        storable(merged(streams), m, k),
        after.contains_key(output),
        after[output] == table_file(merged(streams), m, k),
        same_files(lower_files(files), disk, after),
        mem.contains_key(key) || newest(streams, key) != Some(tombstone()) || searched(
            lower_files(files),
            disk,
            key,
        ) == Ok::<Option<Seq<u8>>, LsmError>(None),
    ensures
        read(mem, with_l1_file(without_inputs(files), output), after, key) == read(
            mem,
            files,
            disk,
            key,
        ),
{
    let inputs = newest_first(files);
    law_compaction_keeps_first_input(files, inputs, disk, after, streams, output, m, k, key);
    lemma_read_order_by_level(files);
    lemma_search_lists(disk, inputs, streams, lower_files(files), key);
}

} // verus!
