//! Whole histories of the engine: writes, flushes, compactions, failures and restarts
//! in any order.

use std::path::PathBuf;

use vstd::prelude::*;

use crate::compaction::{merged, newest, seen_of};
use crate::laws::{
    all_hold, holds, latest, law_compaction_keeps_reads, law_flush_keeps_reads,
    law_memory_holds_latest_writes, law_restart_recovers_latest_writes, law_write_is_read_back,
    law_written_file_holds_its_list, lemma_read_order_by_level, lemma_read_order_compacted,
    lemma_read_order_of_new_file, lemma_search_lists, lower_files, read, Disk,
};
use crate::levels::{newest_first, with_l0_file, with_l1_file, without_inputs};
use crate::lsm::{applied, applied_all, key_of, layered, read_order, value_of, LsmError};
use crate::pairs::{lemma_with_pair, lookup, strictly_sorted, Pair};
use crate::sstable::laws::storable;
use crate::sstable::reader::opened;
use crate::sstable::table_file;
use crate::wal::{
    all_loggable, encoded, law_cut_log_is_whole, law_replay_survives_torn_tail, log_of, loggable,
    replayed, replayed_len, Op,
};

verus! {

/// Something that happens to the engine.
pub enum Event {
    /// An operation is logged and applied.
    Write(Op),
    /// The table in memory is set aside to be flushed.
    StartFlush,
    /// The file of the table that was set aside is written, all its pairs in it, and
    /// becomes part of the first level.
    EndFlush { path: PathBuf, m: nat, k: nat },
    /// The file of the table that was set aside could not be written; the table is
    /// dropped.
    FailFlush,
    /// The first two levels are merged, from the newest file to the oldest, into one
    /// new file, and then removed.
    Compact { output: PathBuf, m: nat, k: nat },
    /// The first two levels could not be merged; their files stay on the disk, but out
    /// of the levels.
    FailCompaction,
    /// The engine stops while the first `cut` bytes of `torn` have been appended to
    /// the log, and is opened again; the log is cut behind its last whole entry.
    Restart { torn: Op, cut: int },
}

/// The engine and its files.
pub struct State {
    pub entries: Seq<Pair>,
    pub flushing: Option<Seq<Pair>>,
    pub files: Seq<Seq<PathBuf>>,
    pub disk: Disk,
    pub log: Seq<u8>,
}

/// The lists that the files hold.
pub open spec fn lists_in(disk: Disk, paths: Seq<PathBuf>) -> Seq<Seq<Pair>> {
    Seq::new(paths.len(), |i: int| (opened(disk[paths[i]])->0).pairs()->0)
}

/// The disk without the given files.
pub open spec fn without_files(disk: Disk, paths: Seq<PathBuf>) -> Disk {
    Map::new(
        |path: PathBuf| disk.contains_key(path) && !paths.contains(path),
        |path: PathBuf| disk[path],
    )
}

/// The engine, opened on an empty log.
pub open spec fn fresh(disk: Disk) -> State {
    State {
        entries: Seq::empty(),
        flushing: None,
        files: Seq::empty(),
        disk,
        log: Seq::empty(),
    }
}

/// The event can happen: lengths fit their fields, files fit memory and are new, and
/// one flush comes after the other.
pub open spec fn possible(state: State, event: Event) -> bool {
    match event {
        Event::Write(op) => loggable(op),
        Event::StartFlush => state.flushing is None,
        Event::EndFlush { path, m, k } => {
            &&& state.flushing matches Some(full)
            &&& storable(full, m, k)
            &&& !read_order(state.files).contains(path)
        },
        Event::FailFlush => state.flushing is Some,
        Event::FailCompaction => true,
        Event::Compact { output, m, k } => {
            let inputs = newest_first(state.files);
            &&& storable(merged(lists_in(state.disk, inputs)), m, k)
            &&& !inputs.contains(output)
        },
        Event::Restart { torn, cut } => loggable(torn) && 0 <= cut < encoded(torn).len(),
    }
}

/// The engine after the event.
pub open spec fn after(state: State, event: Event) -> State {
    match event {
        Event::Write(op) => State {
            entries: applied(state.entries, op),
            log: state.log + encoded(op),
            ..state
        },
        Event::StartFlush => State {
            entries: Seq::empty(),
            flushing: Some(state.entries),
            ..state
        },
        Event::EndFlush { path, m, k } => State {
            flushing: None,
            files: with_l0_file(state.files, path),
            disk: state.disk.insert(path, table_file(state.flushing->0, m, k)),
            ..state
        },
        Event::Compact { output, m, k } => {
            let inputs = newest_first(state.files);
            let file = table_file(merged(lists_in(state.disk, inputs)), m, k);
            State {
                files: with_l1_file(without_inputs(state.files), output),
                disk: without_files(state.disk.insert(output, file), inputs),
                ..state
            }
        },
        Event::FailFlush => State { flushing: None, ..state },
        Event::FailCompaction => State { files: without_inputs(state.files), ..state },
        Event::Restart { torn, cut } => {
            let log = state.log + encoded(torn).take(cut);
            State {
                entries: applied_all(replayed(log)),
                flushing: None,
                files: Seq::empty(),
                log: log.take(replayed_len(log)),
                ..state
            }
        },
    }
}

/// The engine after a history that starts with an empty log.
pub open spec fn run(disk: Disk, events: Seq<Event>) -> State
    decreases events.len(),
{
    if events.len() == 0 {
        fresh(disk)
    } else {
        after(run(disk, events.drop_last()), events.last())
    }
}

/// Every event of the history can happen when it does.
pub open spec fn all_possible(disk: Disk, events: Seq<Event>) -> bool
    decreases events.len(),
{
    events.len() == 0 || {
        &&& all_possible(disk, events.drop_last())
        &&& possible(run(disk, events.drop_last()), events.last())
    }
}

/// The operations written in a history.
pub open spec fn writes(events: Seq<Event>) -> Seq<Op>
    decreases events.len(),
{
    if events.len() == 0 {
        Seq::empty()
    } else {
        match events.last() {
            Event::Write(op) => writes(events.drop_last()).push(op),
            _ => writes(events.drop_last()),
        }
    }
}

/// What a read of the key gives.
pub open spec fn read_of(state: State, key: Seq<u8>) -> Result<Option<Seq<u8>>, LsmError> {
    read(layered(state.entries, state.flushing), state.files, state.disk, key)
}

/// A read of the key gives its latest write among `ops`.
pub open spec fn answers(state: State, ops: Seq<Op>, key: Seq<u8>) -> bool {
    read_of(state, key) == Ok::<Option<Seq<u8>>, LsmError>(seen_of(latest(ops, key)))
}

/// The failed event takes the latest write of the key out of reach: the table that is
/// dropped holds the key, and memory holds nothing newer; or memory does not hold the
/// key, and the files that leave the levels show a value of it.
pub open spec fn loses(state: State, event: Event, key: Seq<u8>) -> bool {
    match event {
        Event::FailFlush => {
            &&& state.flushing matches Some(full)
            &&& lookup(full, key) is Some
            &&& lookup(state.entries, key) is None
        },
        Event::FailCompaction => {
            &&& !layered(state.entries, state.flushing).contains_key(key)
            &&& seen_of(newest(lists_in(state.disk, newest_first(state.files)), key)) is Some
        },
        _ => false,
    }
}

/// A failed event has taken the latest write of the key out of reach, and since then
/// the key was not written again and the engine not restarted.
pub open spec fn out_of_reach(disk: Disk, events: Seq<Event>, key: Seq<u8>) -> bool
    decreases events.len(),
{
    if events.len() == 0 {
        false
    } else {
        let before = events.drop_last();
        match events.last() {
            Event::Write(op) => key_of(op) != key && out_of_reach(disk, before, key),
            Event::Restart { .. } => false,
            event => loses(run(disk, before), event, key) || out_of_reach(disk, before, key),
        }
    }
}

/// What every event keeps: tables are sorted, files hold lists, and the log holds
/// every operation so far.
spec fn intact(state: State, ops: Seq<Op>) -> bool {
    let order = read_order(state.files);
    &&& strictly_sorted(state.entries)
    &&& state.flushing matches Some(full) ==> strictly_sorted(full)
    &&& state.files.len() <= 2
    &&& all_hold(state.disk, order, lists_in(state.disk, order))
    &&& all_loggable(ops)
    &&& state.log == log_of(ops)
}

proof fn lemma_write(state: State, ops: Seq<Op>, op: Op, key: Seq<u8>)
    requires
        intact(state, ops),
        loggable(op),
    ensures
        intact(after(state, Event::Write(op)), ops.push(op)),
        key == key_of(op) || answers(state, ops, key) ==> answers(
            after(state, Event::Write(op)),
            ops.push(op),
            key,
        ),
{
    lemma_with_pair(state.entries, key_of(op), value_of(op));
    assert(ops.push(op).drop_last() =~= ops);
    law_write_is_read_back(state.entries, state.flushing, op, state.files, state.disk, key);
}

proof fn lemma_start_flush(state: State, ops: Seq<Op>, key: Seq<u8>)
    requires
        intact(state, ops),
        state.flushing is None,
    ensures
        intact(after(state, Event::StartFlush), ops),
        answers(after(state, Event::StartFlush), ops, key) == answers(state, ops, key),
{
    let next = after(state, Event::StartFlush);
    assert(layered(next.entries, next.flushing) =~= layered(state.entries, state.flushing));
}

proof fn lemma_end_flush(
    state: State,
    ops: Seq<Op>,
    path: PathBuf,
    m: nat,
    k: nat,
    key: Seq<u8>,
)
    requires
        intact(state, ops),
        possible(state, Event::EndFlush { path, m, k }),
    ensures
        intact(after(state, Event::EndFlush { path, m, k }), ops),
        answers(after(state, Event::EndFlush { path, m, k }), ops, key) == answers(
            state,
            ops,
            key,
        ),
{
    let next = after(state, Event::EndFlush { path, m, k });
    let full = state.flushing->0;
    let old_order = read_order(state.files);
    let order = read_order(next.files);
    let lists = lists_in(next.disk, order);
    lemma_read_order_of_new_file(state.files, path);
    law_written_file_holds_its_list(state.disk, path, full, m, k);
    assert forall|i: int| 0 <= i < order.len() implies holds(
        next.disk,
        #[trigger] order[i],
        lists[i],
    ) by {
        if i > 0 {
            assert(order[i] == old_order[i - 1]);
            assert(old_order.contains(old_order[i - 1]));
            assert(holds(
                state.disk,
                old_order[i - 1],
                lists_in(state.disk, old_order)[i - 1],
            ));
        }
    }
    law_flush_keeps_reads(state.entries, full, state.files, state.disk, path, m, k, key);
}

proof fn lemma_fail_flush(state: State, ops: Seq<Op>, key: Seq<u8>)
    requires
        intact(state, ops),
        possible(state, Event::FailFlush),
    ensures
        intact(after(state, Event::FailFlush), ops),
        answers(state, ops, key) && !loses(state, Event::FailFlush, key) ==> answers(
            after(state, Event::FailFlush),
            ops,
            key,
        ),
{
}

/// There is nothing below the second level, so a read looks at the files of the first
/// two alone.
proof fn lemma_two_levels(files: Seq<Seq<PathBuf>>)
    requires
        files.len() <= 2,
    ensures
        lower_files(files) == Seq::<PathBuf>::empty(),
        read_order(files) == newest_first(files),
{
    if files.len() == 2 {
        assert(files.skip(2) =~= Seq::<Seq<PathBuf>>::empty());
    }
    assert(lower_files(files) =~= Seq::<PathBuf>::empty());
    lemma_read_order_by_level(files);
    assert(read_order(files) =~= newest_first(files));
}

proof fn lemma_compaction(
    state: State,
    ops: Seq<Op>,
    output: PathBuf,
    m: nat,
    k: nat,
    key: Seq<u8>,
)
    requires
        intact(state, ops),
        possible(state, Event::Compact { output, m, k }),
    ensures
        intact(after(state, Event::Compact { output, m, k }), ops),
        answers(after(state, Event::Compact { output, m, k }), ops, key) == answers(
            state,
            ops,
            key,
        ),
{
    let next = after(state, Event::Compact { output, m, k });
    let streams = lists_in(state.disk, newest_first(state.files));
    lemma_two_levels(state.files);
    lemma_read_order_compacted(state.files, output);
    let order = read_order(next.files);
    assert(order =~= seq![output]);
    law_written_file_holds_its_list(state.disk, output, merged(streams), m, k);
    assert(holds(next.disk, output, merged(streams)));
    assert(all_hold(next.disk, order, lists_in(next.disk, order)));
    law_compaction_keeps_reads(
        layered(state.entries, state.flushing),
        state.files,
        state.disk,
        next.disk,
        streams,
        output,
        m,
        k,
        key,
    );
}

proof fn lemma_fail_compaction(state: State, ops: Seq<Op>, key: Seq<u8>)
    requires
        intact(state, ops),
    ensures
        intact(after(state, Event::FailCompaction), ops),
        answers(state, ops, key) && !loses(state, Event::FailCompaction, key) ==> answers(
            after(state, Event::FailCompaction),
            ops,
            key,
        ),
{
    let next = after(state, Event::FailCompaction);
    let inputs = newest_first(state.files);
    let none = Seq::<PathBuf>::empty();
    lemma_two_levels(state.files);
    lemma_two_levels(next.files);
    assert(newest_first(next.files) =~= none);
    assert(inputs + none =~= inputs);
    lemma_search_lists(state.disk, inputs, lists_in(state.disk, inputs), none, key);
}

proof fn lemma_restart(state: State, ops: Seq<Op>, torn: Op, cut: int, key: Seq<u8>)
    requires
        intact(state, ops),
        possible(state, Event::Restart { torn, cut }),
    ensures
        intact(after(state, Event::Restart { torn, cut }), ops),
        answers(after(state, Event::Restart { torn, cut }), ops, key),
{
    law_cut_log_is_whole(ops, torn, cut);
    law_replay_survives_torn_tail(ops, torn, cut);
    law_memory_holds_latest_writes(ops, key);
    law_restart_recovers_latest_writes(ops, torn, cut, state.disk, key);
}

proof fn lemma_run(disk: Disk, events: Seq<Event>, key: Seq<u8>)
    requires
        all_possible(disk, events),
    ensures
        intact(run(disk, events), writes(events)),
        !out_of_reach(disk, events, key) ==> answers(run(disk, events), writes(events), key),
    decreases events.len(),
{
    if events.len() > 0 {
        let before = events.drop_last();
        lemma_run(disk, before, key);
        let state = run(disk, before);
        let ops = writes(before);
        match events.last() {
            Event::Write(op) => lemma_write(state, ops, op, key),
            Event::StartFlush => lemma_start_flush(state, ops, key),
            Event::EndFlush { path, m, k } => lemma_end_flush(state, ops, path, m, k, key),
            Event::FailFlush => lemma_fail_flush(state, ops, key),
            Event::Compact { output, m, k } => lemma_compaction(state, ops, output, m, k, key),
            Event::FailCompaction => lemma_fail_compaction(state, ops, key),
            Event::Restart { torn, cut } => lemma_restart(state, ops, torn, cut, key),
        }
    }
}

/// After any history of writes, flushes, compactions, failures, crashes and restarts
/// a read gives the latest write of the key: its value, or nothing if it was deleted
/// or never written. Only a failed flush or compaction can put that write out of
/// reach, until the key is written again or the engine restarted.
pub proof fn law_reads_give_the_latest_write(disk: Disk, events: Seq<Event>, key: Seq<u8>)
    requires
        all_possible(disk, events),
        !out_of_reach(disk, events, key),
    ensures
        answers(run(disk, events), writes(events), key),
{
    lemma_run(disk, events, key);
}

/// Without a failed flush or compaction every read gives the latest write.
pub proof fn law_reads_without_failures_are_latest(disk: Disk, events: Seq<Event>, key: Seq<u8>)
    requires
        all_possible(disk, events),
        forall|i: int|
            0 <= i < events.len() ==> !((#[trigger] events[i]) is FailFlush || events[i]
                is FailCompaction),
    ensures
        answers(run(disk, events), writes(events), key),
{
    lemma_nothing_out_of_reach(disk, events, key);
    lemma_run(disk, events, key);
}

proof fn lemma_nothing_out_of_reach(disk: Disk, events: Seq<Event>, key: Seq<u8>)
    requires
        forall|i: int|
            0 <= i < events.len() ==> !((#[trigger] events[i]) is FailFlush || events[i]
                is FailCompaction),
    ensures
        !out_of_reach(disk, events, key),
    decreases events.len(),
{
    if events.len() > 0 {
        let before = events.drop_last();
        assert forall|i: int| 0 <= i < before.len() implies !((#[trigger] before[i]) is FailFlush
            || before[i] is FailCompaction) by {
            assert(before[i] == events[i]);
        }
        lemma_nothing_out_of_reach(disk, before, key);
        assert(events[events.len() - 1] == events.last());
    }
}

/// A restart brings back whatever failures took out of reach: after it every read
/// gives the latest write.
pub proof fn law_restart_repairs_reads(
    disk: Disk,
    events: Seq<Event>,
    torn: Op,
    cut: int,
    key: Seq<u8>,
)
    requires
        all_possible(disk, events),
        loggable(torn),
        0 <= cut < encoded(torn).len(),
    ensures
        answers(after(run(disk, events), Event::Restart { torn, cut }), writes(events), key),
{
    lemma_run(disk, events, key);
    lemma_restart(run(disk, events), writes(events), torn, cut, key);
}

} // verus!
