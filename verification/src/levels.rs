//! Which table files there are, and when they are to be merged.

use std::path::PathBuf;

use vstd::prelude::*;

use crate::compaction::CompactionError;

verus! {

/// `std::path::PathBuf`: the name of a table file. Nothing is claimed of it; it
/// is carried from whoever created the file to whoever opens it.
#[verifier::external_type_specification]
#[verifier::external_body]
pub struct ExPathBuf(PathBuf);

/// How many files the first level may hold before it is merged.
pub const L0_COMPACTION_THRESHOLD: usize = 4;

/// The files of every level, as they occur in specifications.
pub open spec fn files_of(levels: Seq<Vec<PathBuf>>) -> Seq<Seq<PathBuf>> {
    Seq::new(levels.len(), |i: int| levels[i]@)
}

/// The files of the `i`-th level; none, if there is no such level.
pub open spec fn level(files: Seq<Seq<PathBuf>>, i: int) -> Seq<PathBuf> {
    if 0 <= i < files.len() {
        files[i]
    } else {
        Seq::empty()
    }
}

/// The levels with one more file at the end of the first.
pub open spec fn with_l0_file(files: Seq<Seq<PathBuf>>, path: PathBuf) -> Seq<Seq<PathBuf>> {
    if files.len() == 0 {
        seq![seq![path]]
    } else {
        files.update(0, files[0].push(path))
    }
}

/// The files that a compaction merges: the first level, then the second.
pub open spec fn compaction_inputs(files: Seq<Seq<PathBuf>>) -> Seq<PathBuf> {
    level(files, 0) + level(files, 1)
}

/// The same files from the newest to the oldest: the order in which a read looks at
/// them.
pub open spec fn newest_first(files: Seq<Seq<PathBuf>>) -> Seq<PathBuf> {
    level(files, 0).reverse() + level(files, 1)
}

/// The levels without the files that a compaction merges.
pub open spec fn without_inputs(files: Seq<Seq<PathBuf>>) -> Seq<Seq<PathBuf>> {
    Seq::new(
        if files.len() < 2 {
            2
        } else {
            files.len()
        },
        |i: int|
            if i < 2 {
                Seq::empty()
            } else {
                files[i]
            },
    )
}

/// The levels with one more file at the end of the second.
pub open spec fn with_l1_file(files: Seq<Seq<PathBuf>>, path: PathBuf) -> Seq<Seq<PathBuf>> {
    files.update(1, files[1].push(path))
}

/// The table files, level by level. Within the first level the oldest file comes
/// first.
pub struct LevelManager {
    pub levels: Vec<Vec<PathBuf>>,
}

impl View for LevelManager {
    type V = Seq<Seq<PathBuf>>;

    open spec fn view(&self) -> Seq<Seq<PathBuf>> {
        files_of(self.levels@)
    }
}

impl LevelManager {
    /// No files at all.
    pub fn new() -> (manager: LevelManager)
        ensures
            manager@ == Seq::<Seq<PathBuf>>::empty(),
            manager.levels@.len() == 0,
    {
        let manager = LevelManager { levels: Vec::new() };
        assert(manager@ =~= Seq::<Seq<PathBuf>>::empty());
        manager
    }

    /// Adds a file to the first level.
    pub fn add_l0_file(&mut self, path: PathBuf)
        ensures
            final(self)@ == with_l0_file(old(self)@, path),
    {
        let ghost before = self@;
        if self.levels.is_empty() {
            self.levels.push(Vec::new());
        }
        self.levels[0].push(path);
        assert(self@ =~= with_l0_file(before, path));
    }

    /// Whether the first level is full.
    pub fn needs_compaction(&self) -> (full: bool)
        ensures
            full == (level(self@, 0).len() >= 4),
    {
        if self.levels.is_empty() {
            false
        } else {
            self.levels[0].len() >= L0_COMPACTION_THRESHOLD
        }
    }

    /// Starts a compaction: takes the files of the first two levels out and
    /// returns them in the order in which they are to be merged, those that win
    /// first.
    pub fn compact(&mut self) -> (inputs: Vec<PathBuf>)
        requires
            compaction_inputs(old(self)@).len() > 0,
        ensures
            inputs@ == compaction_inputs(old(self)@),
            final(self)@ == without_inputs(old(self)@),
    {
        let ghost before = self@;
        while self.levels.len() < 2
            invariant
                before.len() <= self@.len(),
                before.len() <= 2 ==> self@.len() <= 2,
                before.len() > 2 ==> self@.len() == before.len(),
                forall|i: int| 0 <= i < before.len() ==> (#[trigger] self@[i]) == before[i],
                forall|i: int| before.len() <= i < self@.len() ==> (#[trigger] self@[i]).len() == 0,
            decreases 2 - self.levels.len(),
        {
            let ghost now = self@;
            self.levels.push(Vec::new());
            assert(self@ =~= now.push(Seq::<PathBuf>::empty()));
        }
        let ghost padded = self@;
        let mut inputs: Vec<PathBuf> = Vec::new();
        inputs.append(&mut self.levels[0]);
        assert(self@ =~= padded.update(0, Seq::empty()));
        inputs.append(&mut self.levels[1]);
        assert(self@ =~= padded.update(0, Seq::empty()).update(1, Seq::empty()));
        assert(padded[0] =~= level(before, 0));
        assert(padded[1] =~= level(before, 1));
        assert(inputs@ =~= compaction_inputs(before));
        assert(self@ =~= without_inputs(before));
        inputs
    }

    /// Starts a compaction as `compact` does, but returns the files from the newest
    /// to the oldest, so that the merge keeps the newest value of every key.
    pub fn compact_newest_first(&mut self) -> (inputs: Vec<PathBuf>)
        requires
            compaction_inputs(old(self)@).len() > 0,
        ensures
            inputs@ == newest_first(old(self)@),
            final(self)@ == without_inputs(old(self)@),
    {
        let ghost files = self@;
        let ghost upper = level(files, 0);
        let ghost lower = level(files, 1);
        let count: usize = if self.levels.is_empty() {
            0
        } else {
            self.levels[0].len()
        };
        let mut oldest_first = self.compact();
        let mut rest = oldest_first.split_off(count);
        assert(oldest_first@ =~= upper);
        assert(rest@ =~= lower);
        let mut inputs: Vec<PathBuf> = Vec::new();
        assert(inputs@ =~= upper.skip(upper.len() as int).reverse());
        while oldest_first.len() > 0
            invariant
                oldest_first@.len() <= upper.len(),
                oldest_first@ == upper.take(oldest_first@.len() as int),
                inputs@ == upper.skip(oldest_first@.len() as int).reverse(),
            decreases oldest_first@.len(),
        {
            let ghost n = oldest_first@.len() as int;
            if let Some(path) = oldest_first.pop() {
                inputs.push(path);
                proof {
                    assert(path == upper[n - 1]);
                    assert(oldest_first@ =~= upper.take(n - 1));
                    assert(upper.skip(n - 1).reverse() =~= upper.skip(n).reverse().push(
                        upper[n - 1],
                    ));
                }
            }
        }
        assert(upper.skip(0) =~= upper);
        inputs.append(&mut rest);
        inputs
    }

    /// Ends a compaction: if its inputs were merged into `output_path`, that file
    /// becomes part of the second level.
    pub fn finish_compaction(
        &mut self,
        output_path: PathBuf,
        merged: Result<(), CompactionError>,
    ) -> (result: Result<(), CompactionError>)
        requires
            old(self)@.len() >= 2,
        ensures
            result == merged,
            match merged {
                Ok(_) => final(self)@ == with_l1_file(old(self)@, output_path),
                Err(_) => final(self)@ == old(self)@,
            },
    {
        let ghost before = self@;
        match merged {
            Ok(done) => {
                self.levels[1].push(output_path);
                assert(self@ =~= with_l1_file(before, output_path));
                Ok(done)
            },
            Err(e) => Err(e),
        }
    }
}

/// The files to remove after a compaction: its inputs, once they have been merged,
/// and nothing if they could not be.
pub fn files_to_remove(
    inputs: Vec<PathBuf>,
    merged: &Result<(), CompactionError>,
) -> (removable: Vec<PathBuf>)
    ensures
        removable@ == (match merged {
            Ok(_) => inputs@,
            Err(_) => Seq::empty(),
        }),
{
    match merged {
        Ok(_) => inputs,
        Err(_) => Vec::new(),
    }
}

/// The files of a level are those that stand there.
pub proof fn law_level_is_what_stands_there(files: Seq<Seq<PathBuf>>, i: int)
    ensures
        0 <= i < files.len() ==> level(files, i) == files[i],
        !(0 <= i < files.len()) ==> level(files, i).len() == 0,
{
}

/// The levels are seen as they are held.
pub proof fn law_levels_are_seen_as_held(manager: LevelManager)
    ensures
        manager@.len() == manager.levels@.len(),
        forall|i: int| 0 <= i < manager@.len() ==> (#[trigger] manager@[i]) == manager.levels@[i]@,
{
}

/// Adding a file makes the first level one file longer, the new file at its end, and
/// changes no other level; so a compaction that is due stays due.
pub proof fn law_adding_a_file_lengthens_the_first_level(
    files: Seq<Seq<PathBuf>>,
    path: PathBuf,
    i: int,
)
    ensures
        ({
            let after = with_l0_file(files, path);
            &&& files.len() == 0 ==> after.len() == 1 && after[0].len() == 1
            &&& files.len() > 0 ==> after.len() == files.len() && after[0].len() == files[0].len()
                + 1 && after[0].drop_last() == files[0]
            &&& after[0].last() == path
            &&& 1 <= i < files.len() ==> after[i] == files[i]
            &&& files.len() > 0 && files[0].len() >= 4 ==> after[0].len() >= 4
        }),
{
    if files.len() > 0 {
        assert(with_l0_file(files, path)[0].drop_last() =~= files[0]);
    }
}

/// A compaction merges exactly the files that it takes out of the levels: every file of
/// the first level, in its order, then every file of the second, in its order. The
/// other levels keep theirs, and the first two are left empty. Started from the newest
/// file, it merges the same files, those of the first level backwards.
pub proof fn law_compaction_merges_what_it_takes_out(
    files: Seq<Seq<PathBuf>>,
    upper: Seq<PathBuf>,
    lower: Seq<PathBuf>,
    i: int,
)
    requires
        files.len() > 0 ==> upper == files[0],
        files.len() == 0 ==> upper.len() == 0,
        files.len() > 1 ==> lower == files[1],
        files.len() <= 1 ==> lower.len() == 0,
    ensures
        ({
            let inputs = compaction_inputs(files);
            let backwards = newest_first(files);
            let rest = without_inputs(files);
            let n = upper.len() as int;
            &&& inputs.len() == n + lower.len()
            &&& backwards.len() == n + lower.len()
            &&& 0 <= i < n ==> inputs[i] == upper[i] && backwards[n - 1 - i] == upper[i]
            &&& 0 <= i < lower.len() ==> inputs[n + i] == lower[i] && backwards[n + i] == lower[i]
            &&& files.len() <= 2 ==> rest.len() == 2
            &&& files.len() > 2 ==> rest.len() == files.len()
            &&& rest[0].len() == 0
            &&& rest[1].len() == 0
            &&& 2 <= i < files.len() ==> rest[i] == files[i]
        }),
{
    assert(level(files, 0) =~= upper);
    assert(level(files, 1) =~= lower);
}

/// No file is lost or doubled by a compaction: as often as a file stood in the first two
/// levels, it is merged, whichever the order of the merge.
pub proof fn law_compaction_accounts_for_every_file(
    files: Seq<Seq<PathBuf>>,
    upper: Seq<PathBuf>,
    lower: Seq<PathBuf>,
)
    requires
        files.len() > 0 ==> upper == files[0],
        files.len() == 0 ==> upper.len() == 0,
        files.len() > 1 ==> lower == files[1],
        files.len() <= 1 ==> lower.len() == 0,
    ensures
        compaction_inputs(files).to_multiset() == upper.to_multiset().add(lower.to_multiset()),
        newest_first(files).to_multiset() == upper.to_multiset().add(lower.to_multiset()),
{
    assert(compaction_inputs(files) =~= upper + lower);
    assert(newest_first(files) =~= upper.reverse() + lower);
    vstd::seq_lib::lemma_multiset_commutative(upper, lower);
    vstd::seq_lib::lemma_multiset_commutative(upper.reverse(), lower);
    lemma_reverse_multiset(upper);
}

proof fn lemma_reverse_multiset(s: Seq<PathBuf>)
    ensures
        s.reverse().to_multiset() == s.to_multiset(),
    decreases s.len(),
{
    if s.len() == 0 {
        assert(s.reverse() =~= s);
    } else {
        let front = s.drop_last();
        let last = seq![s.last()];
        lemma_reverse_multiset(front);
        assert(s.reverse() =~= last + front.reverse());
        assert(s =~= front + last);
        vstd::seq_lib::lemma_multiset_commutative(last, front.reverse());
        vstd::seq_lib::lemma_multiset_commutative(front, last);
        assert(last.to_multiset().add(front.to_multiset()) =~= front.to_multiset().add(
            last.to_multiset(),
        ));
    }
}

/// A merged file becomes the last of the second level, and no other level changes.
pub proof fn law_merged_file_joins_the_second_level(files: Seq<Seq<PathBuf>>, path: PathBuf)
    requires
        files.len() >= 2,
    ensures
        ({
            let after = with_l1_file(files, path);
            &&& after.len() == files.len()
            &&& after[1].len() == files[1].len() + 1
            &&& after[1].last() == path
            &&& forall|j: int| 0 <= j < files[1].len() ==> #[trigger] after[1][j] == files[1][j]
            &&& forall|i: int| 0 <= i < files.len() && i != 1 ==> #[trigger] after[i] == files[i]
        }),
{
}

} // verus!
