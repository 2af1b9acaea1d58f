//! The engine: what is written where, and where a read looks.
//!
//! The engine never touches a file. An operation that needs one comes in steps:
//! each step says what is to be read or written, the caller does it and reports
//! how it went, and the next step goes on from there.
//!
//! - A write starts with `set` or `delete`, which give the log entry to append;
//!   `commit` applies it once it is logged. When `commit` asks for a flush,
//!   `flush_memtable` sets the full table aside, where reads still find it, the
//!   caller writes its file, and `install_table` adds that file to the first level.
//! - A read starts with `get`. As long as it asks for a table file, the caller
//!   looks the key up there and hands the outcome to `Lookup::resume`.

use std::path::PathBuf;

use vstd::prelude::*;

use crate::encoding::copy_range;
use crate::levels::LevelManager;
use crate::levels::{
    files_of, level, newest_first, with_l0_file, without_inputs, L0_COMPACTION_THRESHOLD,
};
use crate::memtable::MemTable;
use crate::pairs::{
    contents, law_storing_replaces_one_pair, lookup, strictly_sorted, total_bytes, with_pair, Pair,
};
use crate::sstable::reader::outcome;
use crate::sstable::table_file;
use crate::sstable::writer::SsTableError;
use crate::types::is_tombstone;
use crate::types::{tombstone, visible};
use crate::wal::{replayed, ops_of, Op};
use crate::wal::{Wal, WalEntry, WalError};

verus! {

/// How many bytes of keys and values the table in memory holds before it is
/// flushed.
pub const DEFAULT_FLUSH_THRESHOLD: usize = 4 * 1024 * 1024;

/// Why an operation of the engine failed.
#[derive(Debug)]
pub enum LsmError {
    Io,
}

impl From<WalError> for LsmError {
    fn from(e: WalError) -> (error: LsmError) {
        match e {
            WalError::Error => LsmError::Io,
            WalError::Checksum => LsmError::Io,
        }
    }
}

impl vstd::std_specs::convert::FromSpecImpl<WalError> for LsmError {
    open spec fn obeys_from_spec() -> bool {
        true
    }

    open spec fn from_spec(e: WalError) -> LsmError {
        LsmError::Io
    }
}

impl From<SsTableError> for LsmError {
    fn from(e: SsTableError) -> (error: LsmError) {
        match e {
            SsTableError::Io => LsmError::Io,
        }
    }
}

impl vstd::std_specs::convert::FromSpecImpl<SsTableError> for LsmError {
    open spec fn obeys_from_spec() -> bool {
        true
    }

    open spec fn from_spec(e: SsTableError) -> LsmError {
        LsmError::Io
    }
}

/// The key that an operation writes.
pub open spec fn key_of(op: Op) -> Seq<u8> {
    match op {
        Op::Put { key, .. } => key,
        Op::Delete { key } => key,
    }
}

/// The value that an operation writes: the tombstone, if it is a deletion.
pub open spec fn value_of(op: Op) -> Seq<u8> {
    match op {
        Op::Put { value, .. } => value,
        Op::Delete { .. } => tombstone(),
    }
}

/// The table in memory after an operation.
pub open spec fn applied(entries: Seq<Pair>, op: Op) -> Seq<Pair> {
    with_pair(entries, key_of(op), value_of(op))
}

/// The table in memory after a list of operations on an empty one.
pub open spec fn applied_all(ops: Seq<Op>) -> Seq<Pair>
    decreases ops.len(),
{
    if ops.len() == 0 {
        Seq::empty()
    } else {
        applied(applied_all(ops.drop_last()), ops.last())
    }
}

/// What memory holds: the table that is written to, and behind it the one that is
/// being flushed, if there is one.
pub open spec fn layered(entries: Seq<Pair>, flushing: Option<Seq<Pair>>) -> Map<
    Seq<u8>,
    Seq<u8>,
> {
    match flushing {
        Some(older) => contents(older).union_prefer_right(contents(entries)),
        None => contents(entries),
    }
}

/// The order in which a read looks at the table files: the first level from its
/// newest file to its oldest, then the other levels one after the other.
pub open spec fn read_order(files: Seq<Seq<PathBuf>>) -> Seq<PathBuf> {
    if files.len() == 0 {
        Seq::empty()
    } else {
        files[0].reverse() + files.skip(1).flatten()
    }
}

/// Where a read stands: answered, or with table files left to look at.
pub enum Step {
    Done(Option<Seq<u8>>),
    Probe(Seq<PathBuf>),
}

/// A read with the given files left: without any, nothing was found.
pub open spec fn step_with(files: Seq<PathBuf>) -> Step {
    if files.len() == 0 {
        Step::Done(None)
    } else {
        Step::Probe(files)
    }
}

/// The first step of a read.
pub open spec fn started(
    mem: Map<Seq<u8>, Seq<u8>>,
    files: Seq<Seq<PathBuf>>,
    key: Seq<u8>,
) -> Step {
    if mem.contains_key(key) {
        Step::Done(visible(mem[key]))
    } else {
        step_with(read_order(files))
    }
}

/// The next step of a read with the given files left, of which the first was
/// looked at with the given outcome.
pub open spec fn resumed(
    files: Seq<PathBuf>,
    found: Result<Option<Seq<u8>>, SsTableError>,
) -> Result<Step, LsmError> {
    match found {
        Ok(Some(value)) => Ok(Step::Done(visible(value))),
        Ok(None) => Ok(step_with(files.skip(1))),
        Err(_) => Err(LsmError::Io),
    }
}

/// The files referred to by a vector.
pub open spec fn paths_of(v: Seq<&PathBuf>) -> Seq<PathBuf> {
    Seq::new(v.len(), |i: int| *v[i])
}

/// A read that has table files left to look at.
pub struct Lookup<'a> {
    plan: Vec<&'a PathBuf>,
    next: usize,
}

/// Where a read stands.
pub enum GetStep<'a> {
    /// The answer: the value, or nothing.
    Done(Option<Vec<u8>>),
    /// The key is to be looked up in the file `Lookup::path`.
    Probe(Lookup<'a>),
}

impl<'a> View for Lookup<'a> {
    type V = Seq<PathBuf>;

    closed spec fn view(&self) -> Seq<PathBuf> {
        paths_of(self.plan@).skip(self.next as int)
    }
}

impl<'a> View for GetStep<'a> {
    type V = Step;

    open spec fn view(&self) -> Step {
        match self {
            GetStep::Done(Some(value)) => Step::Done(Some(value@)),
            GetStep::Done(None) => Step::Done(None),
            GetStep::Probe(lookup) => Step::Probe(lookup@),
        }
    }
}

impl<'a> GetStep<'a> {
    /// A step that asks for a file has one to ask for.
    pub open spec fn wf(&self) -> bool {
        match self {
            GetStep::Done(_) => true,
            GetStep::Probe(lookup) => lookup.wf(),
        }
    }
}

impl<'a> Lookup<'a> {
    /// There is a file left to look at.
    pub closed spec fn wf(&self) -> bool {
        self.next < self.plan.len()
    }

    /// The file to look the key up in.
    pub fn path(&self) -> (path: &'a PathBuf)
        requires
            self.wf(),
        ensures
            self@.len() > 0,
            *path == self@[0],
    {
        self.plan[self.next]
    }

    /// Goes on after the file `path` was looked at: `found` is what it stores for
    /// the key, or why it could not be read.
    pub fn resume(self, found: Result<Option<Vec<u8>>, SsTableError>) -> (step: Result<
        GetStep<'a>,
        LsmError,
    >)
        requires
            self.wf(),
        ensures
            match step {
                Ok(s) => s.wf() && resumed(self@, outcome(found)) == Ok::<Step, LsmError>(s@),
                Err(e) => resumed(self@, outcome(found)) == Err::<Step, LsmError>(e),
            },
    {
        let ghost left = self@;
        match found {
            Err(e) => Err(LsmError::from(e)),
            Ok(Some(value)) => Ok(GetStep::Done(shown(value))),
            Ok(None) => {
                let plan = self.plan;
                let next: usize = self.next + 1;
                assert(paths_of(plan@).skip(next as int) =~= left.skip(1));
                Ok(step_from(plan, next))
            },
        }
    }
}

/// A stored value as a reader sees it.
fn shown(value: Vec<u8>) -> (answer: Option<Vec<u8>>)
    ensures
        match answer {
            Some(v) => visible(value@) == Some(v@),
            None => visible(value@) is None,
        },
{
    if is_tombstone(value.as_slice()) {
        None
    } else {
        Some(value)
    }
}

/// The step of a read whose plan has been followed up to `next`.
fn step_from<'a>(plan: Vec<&'a PathBuf>, next: usize) -> (step: GetStep<'a>)
    requires
        next <= plan@.len(),
    ensures
        step.wf(),
        step@ == step_with(paths_of(plan@).skip(next as int)),
{
    if next < plan.len() {
        GetStep::Probe(Lookup { plan, next })
    } else {
        GetStep::Done(None)
    }
}

/// The engine's state in memory.
pub struct Lsm {
    /// The table that writes go to.
    pub mem: MemTable,
    /// The full table whose file is being written.
    pub flushing: Option<MemTable>,
    pub levels: LevelManager,
    pub flush_threshold: usize,
}

impl Lsm {
    /// The tables in memory are intact.
    pub open spec fn wf(&self) -> bool {
        &&& self.mem.wf()
        &&& self.flushing matches Some(table) ==> table.wf()
    }

    /// The pairs of the table that is being flushed.
    pub open spec fn flushing_entries(&self) -> Option<Seq<Pair>> {
        match self.flushing {
            Some(table) => Some(table.entries()),
            None => None,
        }
    }

    /// What memory holds.
    pub open spec fn memory(&self) -> Map<Seq<u8>, Seq<u8>> {
        layered(self.mem.entries(), self.flushing_entries())
    }

    /// The engine after a start with the given log: the table in memory is
    /// rebuilt from the log, and no table file is known.
    pub fn open(log: &[u8]) -> (lsm: Lsm)
        ensures
            lsm.wf(),
            lsm.mem.entries() == applied_all(replayed(log@)),
            lsm.flushing is None,
            lsm.levels@ == Seq::<Seq<PathBuf>>::empty(),
            lsm.flush_threshold == DEFAULT_FLUSH_THRESHOLD,
            lsm.flush_threshold == 4_194_304,
    {
        let entries = Wal::replay(log);
        let ghost ops = ops_of(entries@);
        let mut mem = MemTable::new();
        let ghost all = entries@;
        assert(ops.take(0) =~= Seq::<Op>::empty());
        for entry in it: entries
            invariant
                it.seq() == all,
                ops == ops_of(all),
                mem.wf(),
                mem.entries() == applied_all(ops.take(it.index() as int)),
        {
            assert(entry@ == ops[it.index() as int]);
            assert(ops.take(it.index() + 1).drop_last() =~= ops.take(it.index() as int));
            apply(&mut mem, entry);
        }
        assert(ops.take(ops.len() as int) =~= ops);
        Lsm {
            mem,
            flushing: None,
            levels: LevelManager::new(),
            flush_threshold: DEFAULT_FLUSH_THRESHOLD,
        }
    }

    /// Starts to store a value: the entry to append to the log.
    pub fn set(&self, key: Vec<u8>, value: Vec<u8>) -> (entry: WalEntry)
        ensures
            entry@ == (Op::Put { key: key@, value: value@ }),
            entry == (WalEntry::Put { key, value }),
    {
        WalEntry::Put { key, value }
    }

    /// Starts to delete a key: the entry to append to the log.
    pub fn delete(&self, key: Vec<u8>) -> (entry: WalEntry)
        ensures
            entry@ == (Op::Delete { key: key@ }),
            entry == (WalEntry::Delete { key }),
    {
        WalEntry::Delete { key }
    }

    /// Applies a write once its entry has been appended to the log; one that could
    /// not be logged changes nothing. The answer is whether the table in memory is
    /// now due to be flushed.
    pub fn commit(&mut self, entry: WalEntry, logged: Result<(), WalError>) -> (result: Result<
        bool,
        LsmError,
    >)
        requires
            old(self).wf(),
            logged is Ok ==> total_bytes(applied(old(self).mem.entries(), entry@)) <= usize::MAX,
        ensures
            final(self).wf(),
            match logged {
                Ok(_) => {
                    let after = applied(old(self).mem.entries(), entry@);
                    &&& final(self).mem.entries() == after
                    &&& final(self).flushing == old(self).flushing
                    &&& final(self).levels == old(self).levels
                    &&& final(self).flush_threshold == old(self).flush_threshold
                    &&& result == Ok::<bool, LsmError>(
                        total_bytes(after) >= old(self).flush_threshold,
                    )
                },
                Err(_) => {
                    &&& *final(self) == *old(self)
                    &&& result == Err::<bool, LsmError>(LsmError::Io)
                },
            },
    {
        match logged {
            Err(e) => Err(LsmError::from(e)),
            Ok(_) => {
                apply(&mut self.mem, entry);
                Ok(self.mem.size_bytes() >= self.flush_threshold)
            },
        }
    }

    /// Sets the table in memory aside, to be flushed, and goes on with an empty one.
    /// What memory holds stays the same.
    pub fn flush_memtable(&mut self)
        requires
            old(self).wf(),
            old(self).flushing is None,
        ensures
            final(self).wf(),
            final(self).flushing == Some(old(self).mem),
            final(self).mem.entries() == Seq::<Pair>::empty(),
            final(self).memory() == old(self).memory(),
            final(self).levels == old(self).levels,
            final(self).flush_threshold == old(self).flush_threshold,
    {
        let mut full = MemTable::new();
        std::mem::swap(&mut full, &mut self.mem);
        self.flushing = Some(full);
        assert(self.memory() =~= old(self).memory());
    }

    /// The file of the table that is being flushed, with a filter of `m` bits and `k`
    /// hash functions. Deletions stand in it, so that they go on to hide what older
    /// files hold.
    pub fn flushing_file(&self, m: usize, k: usize) -> (file: Option<Vec<u8>>)
        requires
            k > 0 ==> m > 0,
        ensures
            match (self.flushing_entries(), file) {
                (Some(entries), Some(f)) => f@ == table_file(entries, m as nat, k as nat),
                (None, None) => true,
                _ => false,
            },
    {
        match &self.flushing {
            Some(table) => Some(table.flush_all(m, k)),
            None => None,
        }
    }

    /// Starts a compaction, if the first level is full: takes the files of the first
    /// two levels out and returns them from the newest to the oldest, so that the
    /// merge keeps the newest value of every key.
    pub fn start_compaction(&mut self) -> (inputs: Option<Vec<PathBuf>>)
        ensures
            final(self).mem == old(self).mem,
            final(self).flushing == old(self).flushing,
            final(self).flush_threshold == old(self).flush_threshold,
            match inputs {
                Some(paths) => {
                    &&& level(old(self).levels@, 0).len() >= L0_COMPACTION_THRESHOLD
                    &&& paths@ == newest_first(old(self).levels@)
                    &&& final(self).levels@ == without_inputs(old(self).levels@)
                },
                None => {
                    &&& level(old(self).levels@, 0).len() < L0_COMPACTION_THRESHOLD
                    &&& final(self).levels == old(self).levels
                },
            },
    {
        if self.levels.needs_compaction() {
            Some(self.levels.compact_newest_first())
        } else {
            None
        }
    }

    /// Ends a flush: the file of the flushed table becomes part of the first level,
    /// if it was written, and the table itself is dropped.
    pub fn install_table(&mut self, path: PathBuf, written: Result<(), SsTableError>) -> (result:
        Result<(), LsmError>)
        ensures
            final(self).mem == old(self).mem,
            final(self).flushing is None,
            final(self).flush_threshold == old(self).flush_threshold,
            match written {
                Ok(_) => {
                    &&& final(self).levels@ == with_l0_file(old(self).levels@, path)
                    &&& result is Ok
                },
                Err(_) => {
                    &&& final(self).levels == old(self).levels
                    &&& result == Err::<(), LsmError>(LsmError::Io)
                },
            },
    {
        self.flushing = None;
        match written {
            Ok(done) => {
                self.levels.add_l0_file(path);
                Ok(done)
            },
            Err(e) => Err(LsmError::from(e)),
        }
    }

    /// Starts a read. The table in memory comes first: it holds the latest writes.
    /// The table that is being flushed comes next.
    pub fn get(&self, key: &[u8]) -> (step: GetStep)
        requires
            self.wf(),
        ensures
            step.wf(),
            step@ == started(self.memory(), self.levels@, key@),
    {
        if let Some(value) = self.mem.get(key) {
            return GetStep::Done(shown_copy(value));
        }
        if let Some(table) = &self.flushing {
            if let Some(value) = table.get(key) {
                return GetStep::Done(shown_copy(value));
            }
        }
        let plan = self.read_plan();
        assert(paths_of(plan@).skip(0) =~= paths_of(plan@));
        step_from(plan, 0)
    }

    /// The table files in the order in which a read looks at them.
    fn read_plan(&self) -> (plan: Vec<&PathBuf>)
        ensures
            paths_of(plan@) == read_order(self.levels@),
    {
        let mut plan: Vec<&PathBuf> = Vec::new();
        let ghost files = self.levels@;
        if self.levels.levels.len() == 0 {
            assert(paths_of(plan@) =~= Seq::<PathBuf>::empty());
            return plan;
        }
        let l0 = &self.levels.levels[0];
        let mut i: usize = l0.len();
        assert(paths_of(plan@) =~= l0@.skip(i as int).reverse());
        while i > 0
            invariant
                0 <= i <= l0.len(),
                paths_of(plan@) == l0@.skip(i as int).reverse(),
            decreases i,
        {
            i = i - 1;
            let ghost before = plan@;
            plan.push(&l0[i]);
            proof {
                assert(paths_of(plan@) =~= paths_of(before).push(l0@[i as int]));
                assert(l0@.skip(i as int).reverse() =~= l0@.skip(i + 1).reverse().push(
                    l0@[i as int],
                ));
            }
        }
        assert(l0@.skip(0) =~= files[0]);
        let ghost front = paths_of(plan@);
        let mut n: usize = 1;
        let ghost lower = files.skip(1);
        assert(front + lower.flatten() == front + files.skip(n as int).flatten());
        while n < self.levels.levels.len()
            invariant
                1 <= n <= self.levels.levels.len(),
                files == files_of(self.levels.levels@),
                paths_of(plan@) + files.skip(n as int).flatten() == front + lower.flatten(),
            decreases self.levels.levels.len() - n,
        {
            let level = &self.levels.levels[n];
            let ghost before = paths_of(plan@);
            let mut j: usize = 0;
            assert(paths_of(plan@) =~= before + level@.take(0));
            while j < level.len()
                invariant
                    0 <= j <= level.len(),
                    paths_of(plan@) == before + level@.take(j as int),
                decreases level.len() - j,
            {
                let ghost now = plan@;
                plan.push(&level[j]);
                assert(paths_of(plan@) =~= paths_of(now).push(level@[j as int]));
                assert(level@.take(j + 1) =~= level@.take(j as int).push(level@[j as int]));
                assert(paths_of(plan@) =~= before + level@.take(j + 1));
                j = j + 1;
            }
            proof {
                let here = files.skip(n as int);
                assert(here.drop_first() =~= files.skip(n + 1));
                assert(here.first() == level@);
                assert(level@.take(level@.len() as int) =~= level@);
                assert((before + level@) + files.skip(n + 1).flatten() =~= before + (level@
                    + files.skip(n + 1).flatten()));
            }
            n = n + 1;
        }
        proof {
            assert(files.skip(n as int) =~= Seq::<Seq<PathBuf>>::empty());
            assert(paths_of(plan@) + Seq::<PathBuf>::empty() =~= paths_of(plan@));
        }
        plan
    }
}

/// Applies a logged operation to the table in memory.
fn apply(mem: &mut MemTable, entry: WalEntry)
    requires
        old(mem).wf(),
    ensures
        final(mem).wf(),
        final(mem).entries() == applied(old(mem).entries(), entry@),
{
    match entry {
        WalEntry::Put { key, value } => mem.set(key, value),
        WalEntry::Delete { key } => mem.delete(key),
    }
}

/// A copy of a stored value as a reader sees it.
fn shown_copy(value: &Vec<u8>) -> (answer: Option<Vec<u8>>)
    ensures
        match answer {
            Some(v) => visible(value@) == Some(v@),
            None => visible(value@) is None,
        },
{
    if is_tombstone(value.as_slice()) {
        None
    } else {
        Some(copy_range(value.as_slice(), 0, value.len()))
    }
}

/// The key and the value of an operation are those it was made with; a deletion writes
/// the tombstone. An operation stores its value for its key, and one more operation is
/// applied behind the others.
pub proof fn law_operations_store_their_values(
    entries: Seq<Pair>,
    ops: Seq<Op>,
    op: Op,
    key: Seq<u8>,
    value: Seq<u8>,
    p: Pair,
)
    requires
        strictly_sorted(entries),
    ensures
        key_of(Op::Put { key, value }) == key && value_of(Op::Put { key, value }) == value,
        key_of(Op::Delete { key }) == key && visible(value_of(Op::Delete { key })) is None,
        applied(entries, Op::Put { key, value }).contains(p) <==> p == (key, value) || (
        entries.contains(p) && p.0 != key),
        applied(entries, Op::Delete { key }).contains(p) <==> p == (key, tombstone()) || (
        entries.contains(p) && p.0 != key),
        applied_all(Seq::empty()).len() == 0,
        applied_all(ops.push(op)) == applied(applied_all(ops), op),
{
    law_storing_replaces_one_pair(entries, key, value, p);
    law_storing_replaces_one_pair(entries, key, tombstone(), p);
    assert(ops.push(op).drop_last() =~= ops);
}

/// Memory holds of a key what the table that is written to holds of it, or else what the
/// table that is being flushed does.
pub proof fn law_newer_table_covers_the_older(
    entries: Seq<Pair>,
    older: Seq<Pair>,
    key: Seq<u8>,
)
    ensures
        layered(entries, None).contains_key(key) <==> lookup(entries, key) is Some,
        layered(entries, Some(older)).contains_key(key) <==> lookup(entries, key) is Some
            || lookup(older, key) is Some,
        lookup(entries, key) is Some ==> layered(entries, None)[key] == lookup(entries, key)->0,
        lookup(entries, key) is Some ==> layered(entries, Some(older))[key] == lookup(
            entries,
            key,
        )->0,
        lookup(entries, key) is None && lookup(older, key) is Some ==> layered(
            entries,
            Some(older),
        )[key] == lookup(older, key)->0,
{
}

/// A read looks at the first level from its last file to its first, then at the files of
/// the second level in their order, then at those of the third, and so on: at every
/// file, and as often as it stands in the levels.
pub proof fn law_read_looks_at_every_file(
    files: Seq<Seq<PathBuf>>,
    upper: Seq<PathBuf>,
    next: Seq<PathBuf>,
    i: int,
)
    ensures
        read_order(Seq::empty()).len() == 0,
        read_order(seq![upper]).len() == upper.len(),
        0 <= i < upper.len() ==> read_order(seq![upper])[i] == upper[upper.len() - 1 - i],
        files.len() > 0 ==> read_order(files.push(next)) == read_order(files) + next,
{
    assert(seq![upper].skip(1) =~= Seq::<Seq<PathBuf>>::empty());
    assert(read_order(seq![upper]) =~= upper.reverse());
    if files.len() > 0 {
        let lower = files.skip(1);
        assert(files.push(next).skip(1) =~= lower.push(next));
        lemma_flatten_push(lower, next);
        assert(read_order(files.push(next)) =~= read_order(files) + next);
    }
}

proof fn lemma_flatten_push(levels: Seq<Seq<PathBuf>>, next: Seq<PathBuf>)
    ensures
        levels.push(next).flatten() == levels.flatten() + next,
    decreases levels.len(),
{
    let all = levels.push(next);
    if levels.len() == 0 {
        assert(all.drop_first() =~= levels);
        assert(all.flatten() =~= next + levels.flatten());
        assert(all.flatten() =~= levels.flatten() + next);
    } else {
        let rest = levels.drop_first();
        assert(all.drop_first() =~= rest.push(next));
        lemma_flatten_push(rest, next);
        assert(all.flatten() =~= levels.flatten() + next);
    }
}

/// A read ends with what memory shows, if memory holds the key; else it begins with all
/// files, in order, and has found nothing if there are none. A file that stores the key
/// ends it, one that does not leaves the files behind it, and one that cannot be read
/// makes it fail.
pub proof fn law_read_steps(
    mem: Map<Seq<u8>, Seq<u8>>,
    files: Seq<Seq<PathBuf>>,
    key: Seq<u8>,
    path: PathBuf,
    rest: Seq<PathBuf>,
    value: Seq<u8>,
    e: SsTableError,
)
    ensures
        mem.contains_key(key) ==> started(mem, files, key) == Step::Done(visible(mem[key])),
        !mem.contains_key(key) && read_order(files).len() == 0 ==> started(mem, files, key)
            == Step::Done(None),
        !mem.contains_key(key) && read_order(files).len() > 0 ==> started(mem, files, key)
            == Step::Probe(read_order(files)),
        resumed(seq![path] + rest, Ok(Some(value))) == Ok::<Step, LsmError>(
            Step::Done(visible(value)),
        ),
        resumed(seq![path] + rest, Ok(None)) == Ok::<Step, LsmError>(
            if rest.len() == 0 {
                Step::Done(None)
            } else {
                Step::Probe(rest)
            },
        ),
        resumed(seq![path] + rest, Err(e)) == Err::<Step, LsmError>(LsmError::Io),
{
    assert((seq![path] + rest).skip(1) =~= rest);
}

/// An answer is the value that it holds, and memory is the table that is written to and
/// the one that is being flushed.
pub proof fn law_answers_are_seen_as_given<'a>(
    lsm: Lsm,
    key: Seq<u8>,
    value: Vec<u8>,
    lookup: Lookup<'a>,
    refs: Seq<&PathBuf>,
    i: int,
)
    ensures
        GetStep::<'a>::Done(Some(value))@ == Step::Done(Some(value@)),
        GetStep::<'a>::Done(None)@ == Step::Done(None),
        GetStep::<'a>::Probe(lookup)@ == Step::Probe(lookup@),
        paths_of(refs).len() == refs.len(),
        0 <= i < refs.len() ==> paths_of(refs)[i] == *refs[i],
        lsm.mem@.contains_key(key) ==> lsm.memory().contains_key(key) && lsm.memory()[key]
            == lsm.mem@[key],
        !lsm.mem@.contains_key(key) && lsm.flushing is None ==> !lsm.memory().contains_key(key),
        !lsm.mem@.contains_key(key) && lsm.flushing is Some ==> lsm.memory().contains_key(key) == (
        lsm.flushing->0)@.contains_key(key),
        !lsm.mem@.contains_key(key) && lsm.memory().contains_key(key) ==> lsm.memory()[key] == (
        lsm.flushing->0)@[key],
        lsm.wf() ==> lsm.mem.wf() && (lsm.flushing is Some ==> (lsm.flushing->0).wf()),
{
}

} // verus!
