//! Reading the file of a sorted table.

use vstd::prelude::*;

use crate::bloom::BloomFilter;
use crate::bloom::{decoded_filter, Filter};
use crate::encoding::{copy_range, get_le};
use crate::encoding::{le_value, len_at, lemma_capacity, lemma_le_value_bound};
use crate::order::{compare_keys, KeyOrder};
use crate::order::{key_lt, lemma_key_lt_asymmetric, lemma_key_lt_transitive};
use crate::pairs::{pairs_of, Pair};
use crate::sstable::writer::checkpoints_of;
use crate::sstable::writer::SsTableError;
use crate::sstable::Checkpoint;
use crate::sstable::FOOTER_LEN;

verus! {

/// The pair whose record starts at `pos` and the position behind it; `None` if
/// the file ends inside the record.
pub open spec fn record_at(file: Seq<u8>, pos: int) -> Option<(Pair, int)> {
    if file.len() < pos + 4 {
        None
    } else {
        let key_end = pos + 4 + len_at(file, pos);
        if file.len() < key_end + 4 {
            None
        } else {
            let value_end = key_end + 4 + len_at(file, key_end);
            if file.len() < value_end {
                None
            } else {
                Some(
                    (
                        (file.subrange(pos + 4, key_end), file.subrange(key_end + 4, value_end)),
                        value_end,
                    ),
                )
            }
        }
    }
}

/// What a scan for `key` that starts at `pos` comes upon first: the key, a
/// greater one, or the end of the data.
pub open spec fn scanned(file: Seq<u8>, data_end: int, pos: int, key: Seq<u8>) -> Result<
    Option<Seq<u8>>,
    SsTableError,
>
    decreases
        (if pos < data_end {
            data_end - pos
        } else {
            0
        }),
{
    if pos >= data_end {
        Ok(None)
    } else {
        match record_at(file, pos) {
            None => Err(SsTableError::Io),
            Some((p, next)) => if p.0 == key {
                Ok(Some(p.1))
            } else if key_lt(key, p.0) {
                Ok(None)
            } else {
                scanned(file, data_end, next, key)
            },
        }
    }
}

/// All pairs from `pos` to the end of the data; `None` if the file ends inside
/// one of them.
pub open spec fn pairs_from(file: Seq<u8>, data_end: int, pos: int) -> Option<Seq<Pair>>
    decreases
        (if pos < data_end {
            data_end - pos
        } else {
            0
        }),
{
    if pos >= data_end {
        Some(Seq::empty())
    } else {
        match record_at(file, pos) {
            None => None,
            Some((p, next)) => match pairs_from(file, data_end, next) {
                None => None,
                Some(rest) => Some(seq![p] + rest),
            },
        }
    }
}

/// The entries of an index section; `None` if it ends inside one of them.
pub open spec fn parsed_index(bytes: Seq<u8>) -> Option<Seq<Checkpoint>>
    decreases bytes.len(),
{
    if bytes.len() == 0 {
        Some(Seq::empty())
    } else if bytes.len() < 4 {
        None
    } else {
        let key_end = 4 + len_at(bytes, 0);
        if bytes.len() < key_end + 8 {
            None
        } else {
            let checkpoint = (
                bytes.subrange(4, key_end),
                le_value(bytes.subrange(key_end, key_end + 8)),
            );
            match parsed_index(bytes.skip(key_end + 8)) {
                None => None,
                Some(rest) => Some(seq![checkpoint] + rest),
            }
        }
    }
}

/// The keys of the index strictly increase.
pub open spec fn index_sorted(index: Seq<Checkpoint>) -> bool {
    forall|i: int, j: int|
        0 <= i < j < index.len() ==> key_lt(#[trigger] index[i].0, #[trigger] index[j].0)
}

/// How many entries at the front of the index have keys up to the given one.
pub open spec fn covering(index: Seq<Checkpoint>, key: Seq<u8>) -> nat
    decreases index.len(),
{
    if index.len() == 0 || key_lt(key, index[0].0) {
        0
    } else {
        1 + covering(index.skip(1), key)
    }
}

/// A table file and what its footer leads to.
pub struct Table {
    pub file: Seq<u8>,
    pub data_end: int,
    pub filter: Filter,
    pub index: Seq<Checkpoint>,
}

impl Table {
    /// What the table stores for the key, the tombstone included: nothing, if
    /// the filter denies the key or it comes before the whole index; otherwise
    /// what a scan from the last index entry up to the key finds.
    pub open spec fn stored(self, key: Seq<u8>) -> Result<Option<Seq<u8>>, SsTableError> {
        let n = covering(self.index, key) as int;
        if !self.filter.admits(key) || n == 0 {
            Ok(None)
        } else {
            scanned(self.file, self.data_end, self.index[n - 1].1 as int, key)
        }
    }

    /// All pairs of the table; `None` if its data is cut short.
    pub open spec fn pairs(self) -> Option<Seq<Pair>> {
        pairs_from(self.file, self.data_end, 0)
    }
}

/// The section of `len` bytes at `at`; `None` if it does not lie in the file. An
/// empty section may lie anywhere.
pub open spec fn section(file: Seq<u8>, at: int, len: int) -> Option<Seq<u8>> {
    if len == 0 {
        Some(Seq::empty())
    } else if at + len > file.len() {
        None
    } else {
        Some(file.subrange(at, at + len))
    }
}

/// The table in a file; `None` if the file has no footer, if the footer leads
/// outside the file, or if the sections it leads to hold no filter or no index.
pub open spec fn opened(file: Seq<u8>) -> Option<Table> {
    if file.len() < FOOTER_LEN {
        None
    } else {
        let at = file.len() - FOOTER_LEN;
        let filter_at = le_value(file.subrange(at, at + 8)) as int;
        let filter_len = le_value(file.subrange(at + 8, at + 16)) as int;
        let index_at = le_value(file.subrange(at + 16, at + 24)) as int;
        let index_len = le_value(file.subrange(at + 24, at + 32)) as int;
        match (section(file, filter_at, filter_len), section(file, index_at, index_len)) {
            (Some(filter_bytes), Some(index_bytes)) => match (
                decoded_filter(filter_bytes),
                parsed_index(index_bytes),
            ) {
                (Some(filter), Some(index)) => Some(
                    Table { file, data_end: filter_at, filter, index },
                ),
                _ => None,
            },
            _ => None,
        }
    }
}

/// The outcome of a lookup, as it occurs in specifications.
pub open spec fn outcome(result: Result<Option<Vec<u8>>, SsTableError>) -> Result<
    Option<Seq<u8>>,
    SsTableError,
> {
    match result {
        Ok(Some(value)) => Ok(Some(value@)),
        Ok(None) => Ok(None),
        Err(e) => Err(e),
    }
}

/// An open table file.
pub struct SsTableReader {
    file: Vec<u8>,
    index: Vec<(Vec<u8>, u64)>,
    data_end: u64,
    filter: BloomFilter,
}

/// The pairs of a table that are still to come.
pub struct SsTableIter {
    // the next pair is the last element
    rest: Vec<(Vec<u8>, Vec<u8>)>,
}

impl View for SsTableReader {
    type V = Table;

    closed spec fn view(&self) -> Table {
        Table {
            file: self.file@,
            data_end: self.data_end as int,
            filter: self.filter@,
            index: checkpoints_of(self.index@),
        }
    }
}

impl SsTableReader {
    /// The filter is intact and the data lies inside the file.
    pub open spec fn wf(&self) -> bool {
        &&& self@.filter.wf()
        &&& 0 <= self@.data_end <= self@.file.len()
    }

    /// Opens the table in the given file.
    pub fn open(file: Vec<u8>) -> (result: Result<SsTableReader, SsTableError>)
        ensures
            match result {
                Ok(reader) => reader.wf() && opened(file@) == Some(reader@),
                Err(_) => opened(file@) is None,
            },
    {
        let len: usize = file.len();
        if len < FOOTER_LEN {
            return Err(SsTableError::Io);
        }
        let at: usize = len - FOOTER_LEN;
        let filter_at: u64 = get_le(file.as_slice(), at, 8);
        let filter_len: u64 = get_le(file.as_slice(), at + 8, 8);
        let index_at: u64 = get_le(file.as_slice(), at + 16, 8);
        let index_len: u64 = get_le(file.as_slice(), at + 24, 8);
        let filter_bytes = match Self::section_of(file.as_slice(), filter_at, filter_len) {
            Some(bytes) => bytes,
            None => return Err(SsTableError::Io),
        };
        let index_bytes = match Self::section_of(file.as_slice(), index_at, index_len) {
            Some(bytes) => bytes,
            None => return Err(SsTableError::Io),
        };
        let filter = match BloomFilter::from_bytes(filter_bytes) {
            Some(filter) => filter,
            None => return Err(SsTableError::Io),
        };
        let index = match Self::parse_index(index_bytes) {
            Some(index) => index,
            None => return Err(SsTableError::Io),
        };
        Ok(SsTableReader { file, index, data_end: filter_at, filter })
    }

    /// The section of `len` bytes at `at`.
    fn section_of(file: &[u8], at: u64, len: u64) -> (bytes: Option<&[u8]>)
        ensures
            match bytes {
                Some(b) => section(file@, at as int, len as int) == Some(b@),
                None => section(file@, at as int, len as int) is None,
            },
    {
        let file_len: u64 = file.len() as u64;
        if len == 0 {
            let bytes = vstd::slice::slice_subrange(file, 0, 0);
            assert(bytes@ =~= Seq::<u8>::empty());
            Some(bytes)
        } else if at > file_len || len > file_len - at {
            None
        } else {
            Some(vstd::slice::slice_subrange(file, at as usize, (at + len) as usize))
        }
    }

    /// The number of index entries.
    pub fn checkpoints(&self) -> (n: usize)
        ensures
            n == self@.index.len(),
    {
        self.index.len()
    }

    /// The entries of an index section.
    fn parse_index(bytes: &[u8]) -> (index: Option<Vec<(Vec<u8>, u64)>>)
        ensures
            match index {
                Some(v) => parsed_index(bytes@) == Some(checkpoints_of(v@)),
                None => parsed_index(bytes@) is None,
            },
    {
        let mut index: Vec<(Vec<u8>, u64)> = Vec::new();
        let mut pos: usize = 0;
        let ghost whole = parsed_index(bytes@);
        proof {
            assert(bytes@.skip(0) =~= bytes@);
            lemma_capacity();
            assert(checkpoints_of(index@) =~= Seq::<Checkpoint>::empty());
            if let Some(all) = whole {
                assert(Seq::<Checkpoint>::empty() + all =~= all);
            }
        }
        while pos < bytes.len()
            invariant
                0 <= pos <= bytes.len(),
                whole == parsed_index(bytes@),
                match parsed_index(bytes@.skip(pos as int)) {
                    Some(rest) => whole == Some(checkpoints_of(index@) + rest),
                    None => whole is None,
                },
            decreases bytes.len() - pos,
        {
            let ghost rest = bytes@.skip(pos as int);
            let left: u64 = (bytes.len() - pos) as u64;
            if left < 4 {
                return None;
            }
            proof {
                lemma_capacity();
                assert(rest.subrange(0, 4) =~= bytes@.subrange(pos as int, pos + 4));
                lemma_le_value_bound(rest.subrange(0, 4));
            }
            let key_len: u64 = get_le(bytes, pos, 4);
            if left < 4 + key_len + 8 {
                return None;
            }
            let key_end: usize = pos + 4 + key_len as usize;
            let key = copy_range(bytes, pos + 4, key_end);
            let offset: u64 = get_le(bytes, key_end, 8);
            let ghost so_far = checkpoints_of(index@);
            let ghost c: Checkpoint = (key@, offset as nat);
            proof {
                let e = 4 + len_at(rest, 0);
                assert(rest.subrange(4, e) =~= key@);
                assert(rest.subrange(e, e + 8) =~= bytes@.subrange(key_end as int, key_end + 8));
                assert(rest.skip(e + 8) =~= bytes@.skip(key_end + 8));
            }
            index.push((key, offset));
            proof {
                assert(checkpoints_of(index@) =~= so_far.push(c));
                if let Some(more) = parsed_index(bytes@.skip(key_end + 8)) {
                    assert(so_far + (seq![c] + more) =~= so_far.push(c) + more);
                }
            }
            pos = key_end + 8;
        }
        proof {
            assert(bytes@.skip(pos as int) =~= Seq::<u8>::empty());
            assert(checkpoints_of(index@) + Seq::<Checkpoint>::empty() =~= checkpoints_of(index@));
        }
        Some(index)
    }

    /// The pair whose record starts at `pos` and the position behind it.
    fn read_record(&self, pos: u64) -> (result: Option<(Vec<u8>, Vec<u8>, u64)>)
        requires
            pos <= self@.file.len(),
        ensures
            match result {
                Some((key, value, next)) => record_at(self@.file, pos as int) == Some(
                    ((key@, value@), next as int),
                ),
                None => record_at(self@.file, pos as int) is None,
            },
    {
        let file = self.file.as_slice();
        let len: u64 = file.len() as u64;
        let left: u64 = len - pos;
        if left < 4 {
            return None;
        }
        proof {
            lemma_capacity();
            lemma_le_value_bound(file@.subrange(pos as int, pos + 4));
        }
        let key_len: u64 = get_le(file, pos as usize, 4);
        if left < 4 + key_len + 4 {
            return None;
        }
        let key_end: u64 = pos + 4 + key_len;
        proof {
            lemma_le_value_bound(file@.subrange(key_end as int, key_end + 4));
        }
        let value_len: u64 = get_le(file, key_end as usize, 4);
        if left < 4 + key_len + 4 + value_len {
            return None;
        }
        let value_end: u64 = key_end + 4 + value_len;
        let key = copy_range(file, (pos + 4) as usize, key_end as usize);
        let value = copy_range(file, (key_end + 4) as usize, value_end as usize);
        Some((key, value, value_end))
    }

    /// How many index entries have keys up to the given one.
    fn covering_entries(&self, key: &[u8]) -> (n: usize)
        ensures
            n <= self.index.len(),
            index_sorted(self@.index) ==> n == covering(self@.index, key@),
    {
        let mut lo: usize = 0;
        let mut hi: usize = self.index.len();
        let ghost index = self@.index;
        while lo < hi
            invariant
                index == checkpoints_of(self.index@),
                0 <= lo <= hi <= self.index.len(),
                index_sorted(index) ==> forall|i: int|
                    0 <= i < lo ==> !key_lt(key@, (#[trigger] index[i]).0),
                index_sorted(index) ==> forall|i: int|
                    hi <= i < index.len() ==> key_lt(key@, (#[trigger] index[i]).0),
            decreases hi - lo,
        {
            let mid: usize = lo + (hi - lo) / 2;
            assert(index[mid as int].0 == self.index[mid as int].0@);
            let order = compare_keys(self.index[mid].0.as_slice(), key);
            if order == KeyOrder::Greater {
                proof {
                    if index_sorted(index) {
                        assert forall|i: int| mid <= i < index.len() implies key_lt(
                            key@,
                            (#[trigger] index[i]).0,
                        ) by {
                            if i > mid {
                                lemma_key_lt_transitive(key@, index[mid as int].0, index[i].0);
                            }
                        }
                    }
                }
                hi = mid;
            } else {
                proof {
                    if index_sorted(index) {
                        assert forall|i: int| 0 <= i < mid + 1 implies !key_lt(
                            key@,
                            (#[trigger] index[i]).0,
                        ) by {
                            if i < mid && key_lt(key@, index[i].0) {
                                lemma_key_lt_transitive(key@, index[i].0, index[mid as int].0);
                            }
                        }
                    }
                }
                lo = mid + 1;
            }
        }
        proof {
            if index_sorted(index) {
                lemma_covering_unique(index, key@, lo as int);
            }
        }
        lo
    }

    /// What a scan for the key that starts at `start` comes upon.
    fn scan_from(&self, start: u64, key: &[u8]) -> (result: Result<Option<Vec<u8>>, SsTableError>)
        requires
            self.wf(),
        ensures
            outcome(result) == scanned(self@.file, self@.data_end, start as int, key@),
    {
        let mut pos: u64 = start;
        let ghost expected = scanned(self@.file, self@.data_end, start as int, key@);
        while pos < self.data_end
            invariant
                self.wf(),
                expected == scanned(self@.file, self@.data_end, start as int, key@),
                expected == scanned(self@.file, self@.data_end, pos as int, key@),
            decreases
                    (if pos < self.data_end {
                        self.data_end - pos
                    } else {
                        0
                    }),
        {
            match self.read_record(pos) {
                None => {
                    return Err(SsTableError::Io);
                },
                Some((record_key, record_value, next)) => {
                    match compare_keys(record_key.as_slice(), key) {
                        KeyOrder::Equal => {
                            return Ok(Some(record_value));
                        },
                        KeyOrder::Greater => {
                            return Ok(None);
                        },
                        KeyOrder::Less => {
                            proof {
                                lemma_key_lt_asymmetric(record_key@, key@);
                            }
                            pos = next;
                        },
                    }
                },
            }
        }
        Ok(None)
    }

    /// What the table stores for the key, a tombstone as well: the engine asks so,
    /// because a deletion hides what older tables hold.
    pub fn get_raw(&self, key: &[u8]) -> (result: Result<Option<Vec<u8>>, SsTableError>)
        requires
            self.wf(),
        ensures
            index_sorted(self@.index) ==> outcome(result) == self@.stored(key@),
            !self@.filter.admits(key@) ==> outcome(result) == Ok::<Option<Seq<u8>>, SsTableError>(
                None,
            ),
            outcome(result) == Ok::<Option<Seq<u8>>, SsTableError>(None) || exists|i: int|
                0 <= i < self@.index.len() && outcome(result) == scanned(
                    self@.file,
                    self@.data_end,
                    (#[trigger] self@.index[i]).1 as int,
                    key@,
                ),
    {
        if !self.filter.might_contain(key) {
            return Ok(None);
        }
        let n = self.covering_entries(key);
        if n == 0 {
            return Ok(None);
        }
        let start: u64 = self.index[n - 1].1;
        assert(self@.index[n - 1].1 == start);
        self.scan_from(start, key)
    }

    /// The value that the table stores for the key. A tombstone is a value like any
    /// other here.
    pub fn get(&self, key: &[u8]) -> (result: Result<Option<Vec<u8>>, SsTableError>)
        requires
            self.wf(),
        ensures
            index_sorted(self@.index) ==> outcome(result) == self@.stored(key@),
            !self@.filter.admits(key@) ==> outcome(result) == Ok::<Option<Seq<u8>>, SsTableError>(
                None,
            ),
            outcome(result) == Ok::<Option<Seq<u8>>, SsTableError>(None) || exists|i: int|
                0 <= i < self@.index.len() && outcome(result) == scanned(
                    self@.file,
                    self@.data_end,
                    (#[trigger] self@.index[i]).1 as int,
                    key@,
                ),
    {
        self.get_raw(key)
    }

    /// All pairs of the table, in the order of the file.
    pub fn iter(&self) -> (result: Result<SsTableIter, SsTableError>)
        requires
            self.wf(),
        ensures
            match result {
                Ok(it) => self@.pairs() == Some(it@),
                Err(_) => self@.pairs() is None,
            },
    {
        let mut pairs: Vec<(Vec<u8>, Vec<u8>)> = Vec::new();
        let mut pos: u64 = 0;
        let ghost whole = self@.pairs();
        proof {
            assert(pairs_of(pairs@) =~= Seq::<Pair>::empty());
            if let Some(all) = whole {
                assert(Seq::<Pair>::empty() + all =~= all);
            }
        }
        while pos < self.data_end
            invariant
                self.wf(),
                whole == self@.pairs(),
                match pairs_from(self@.file, self@.data_end, pos as int) {
                    Some(rest) => whole == Some(pairs_of(pairs@) + rest),
                    None => whole is None,
                },
            decreases
                    (if pos < self.data_end {
                        self.data_end - pos
                    } else {
                        0
                    }),
        {
            match self.read_record(pos) {
                None => {
                    return Err(SsTableError::Io);
                },
                Some((key, value, next)) => {
                    let ghost so_far = pairs_of(pairs@);
                    let ghost p: Pair = (key@, value@);
                    pairs.push((key, value));
                    proof {
                        assert(pairs_of(pairs@) =~= so_far.push(p));
                        if let Some(more) = pairs_from(self@.file, self@.data_end, next as int) {
                            assert(so_far + (seq![p] + more) =~= so_far.push(p) + more);
                        }
                    }
                    pos = next;
                },
            }
        }
        assert(pairs_of(pairs@) + Seq::<Pair>::empty() =~= pairs_of(pairs@));
        Ok(SsTableIter::over(pairs))
    }
}

impl View for SsTableIter {
    type V = Seq<Pair>;

    closed spec fn view(&self) -> Seq<Pair> {
        pairs_of(self.rest@).reverse()
    }
}

impl SsTableIter {
    /// An iterator over the given pairs.
    fn over(pairs: Vec<(Vec<u8>, Vec<u8>)>) -> (it: SsTableIter)
        ensures
            it@ == pairs_of(pairs@),
    {
        let ghost all = pairs_of(pairs@);
        let mut pairs = pairs;
        let mut rest: Vec<(Vec<u8>, Vec<u8>)> = Vec::new();
        assert(pairs_of(rest@) =~= all.skip(all.len() as int).reverse());
        while pairs.len() > 0
            invariant
                pairs.len() <= all.len(),
                pairs_of(pairs@) == all.take(pairs.len() as int),
                pairs_of(rest@) == all.skip(pairs.len() as int).reverse(),
            decreases pairs.len(),
        {
            let ghost n = pairs.len() as int;
            let ghost before = pairs@;
            let ghost rest_before = rest@;
            match pairs.pop() {
                Some(p) => {
                    rest.push(p);
                    proof {
                        assert((p.0@, p.1@) == pairs_of(before)[n - 1]);
                        assert(pairs_of(pairs@) =~= all.take(n - 1));
                        assert(pairs_of(rest@) =~= pairs_of(rest_before).push(all[n - 1]));
                        assert(all.skip(n - 1).reverse() =~= all.skip(n).reverse().push(
                            all[n - 1],
                        ));
                    }
                },
                None => {},
            }
        }
        assert(all.skip(0).reverse().reverse() =~= all);
        SsTableIter { rest }
    }

    /// Takes the next pair.
    pub fn next(&mut self) -> (pair: Option<(Vec<u8>, Vec<u8>)>)
        ensures
            match pair {
                Some((key, value)) => old(self)@.len() > 0 && (key@, value@) == old(self)@[0]
                    && final(self)@ == old(self)@.skip(1),
                None => old(self)@.len() == 0 && final(self)@ == old(self)@,
            },
    {
        let ghost before = self.rest@;
        let pair = self.rest.pop();
        proof {
            if before.len() > 0 {
                assert(pairs_of(self.rest@) =~= pairs_of(before).drop_last());
                assert(pairs_of(self.rest@).reverse() =~= pairs_of(before).reverse().skip(1));
            }
        }
        pair
    }

    /// How many pairs are still to come.
    pub fn count(self) -> (n: usize)
        ensures
            n == self@.len(),
    {
        self.rest.len()
    }

    /// The pairs that are still to come.
    pub fn collect(self) -> (pairs: Vec<(Vec<u8>, Vec<u8>)>)
        ensures
            pairs_of(pairs@) == self@,
    {
        let ghost all = self@;
        let mut it = self;
        let mut pairs: Vec<(Vec<u8>, Vec<u8>)> = Vec::new();
        assert(pairs_of(pairs@) + it@ =~= all);
        while it.rest.len() > 0
            invariant
                pairs_of(pairs@) + it@ == all,
            decreases it.rest.len(),
        {
            let ghost left = it@;
            let ghost so_far = pairs_of(pairs@);
            match it.next() {
                Some(p) => {
                    pairs.push(p);
                    proof {
                        assert(pairs_of(pairs@) =~= so_far.push(left[0]));
                        assert(so_far.push(left[0]) + left.skip(1) =~= so_far + left);
                    }
                },
                None => {},
            }
        }
        assert(pairs_of(pairs@) + it@ =~= pairs_of(pairs@));
        pairs
    }
}

/// The covering entries are all at the front, and no entry behind them covers.
pub proof fn lemma_covering(index: Seq<Checkpoint>, key: Seq<u8>)
    ensures
        covering(index, key) <= index.len(),
        forall|i: int|
            0 <= i < covering(index, key) ==> !key_lt(key, (#[trigger] index[i]).0),
        covering(index, key) < index.len() ==> key_lt(
            key,
            index[covering(index, key) as int].0,
        ),
    decreases index.len(),
{
    if index.len() > 0 && !key_lt(key, index[0].0) {
        let rest = index.skip(1);
        lemma_covering(rest, key);
        assert forall|i: int| 0 <= i < covering(index, key) implies !key_lt(
            key,
            (#[trigger] index[i]).0,
        ) by {
            if i > 0 {
                assert(rest[i - 1] == index[i]);
            }
        }
        if covering(index, key) < index.len() {
            assert(rest[covering(rest, key) as int] == index[covering(index, key) as int]);
        }
    }
}

/// A position is the number of covering entries if the entries before it cover
/// and it does not.
pub proof fn lemma_covering_unique(index: Seq<Checkpoint>, key: Seq<u8>, n: int)
    requires
        0 <= n <= index.len(),
        forall|i: int| 0 <= i < n ==> !key_lt(key, (#[trigger] index[i]).0),
        n < index.len() ==> key_lt(key, index[n].0),
    ensures
        covering(index, key) == n,
{
    lemma_covering(index, key);
    if covering(index, key) < n {
        assert(!key_lt(key, index[covering(index, key) as int].0));
    } else if n < covering(index, key) {
        assert(!key_lt(key, index[n].0));
    }
}

/// The outcome of a lookup is the value that was found, and an index is sorted exactly
/// if every key comes before every later one.
pub proof fn law_outcomes_are_seen_as_found(
    value: Vec<u8>,
    e: SsTableError,
    index: Seq<Checkpoint>,
)
    ensures
        outcome(Ok(Some(value))) == Ok::<Option<Seq<u8>>, SsTableError>(Some(value@)),
        outcome(Ok(None)) == Ok::<Option<Seq<u8>>, SsTableError>(None),
        outcome(Err(e)) == Err::<Option<Seq<u8>>, SsTableError>(e),
        index_sorted(index) <==> forall|i: int, j: int|
            0 <= i < j < index.len() ==> key_lt(#[trigger] index[i].0, #[trigger] index[j].0),
{
}

} // verus!
