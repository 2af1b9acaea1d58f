//! Merging tables into one.

use vstd::prelude::*;

use crate::order::{compare_keys, KeyOrder};
use crate::order::{
    key_lt, lemma_key_lt_asymmetric, lemma_key_lt_irreflexive, lemma_key_lt_total,
    lemma_key_lt_transitive,
};
use crate::pairs::{
    lemma_lookup_absent, lemma_lookup_found, lemma_lookup_sorted, lemma_tail_sorted, lookup,
    strictly_sorted, Pair,
};
use crate::sstable::reader::opened;
use crate::sstable::reader::{SsTableIter, SsTableReader};
use crate::sstable::table_file;
use crate::sstable::writer::{SsTableError, SsTableWriter};
use crate::types::is_tombstone;
use crate::types::{tombstone, visible};

verus! {

/// Why tables could not be merged.
#[derive(Debug)]
pub enum CompactionError {
    Io,
    EmptySsTable,
}

impl From<SsTableError> for CompactionError {
    fn from(e: SsTableError) -> (error: CompactionError) {
        match e {
            SsTableError::Io => CompactionError::Io,
        }
    }
}

impl vstd::std_specs::convert::FromSpecImpl<SsTableError> for CompactionError {
    open spec fn obeys_from_spec() -> bool {
        true
    }

    open spec fn from_spec(e: SsTableError) -> CompactionError {
        CompactionError::Io
    }
}

/// The `l`-th stream is the one to read next: its first key is the least of all
/// first keys, and no earlier stream starts with the same key.
pub open spec fn leads(streams: Seq<Seq<Pair>>, l: int) -> bool {
    &&& 0 <= l < streams.len()
    &&& streams[l].len() > 0
    &&& forall|j: int|
        0 <= j < streams.len() && (#[trigger] streams[j]).len() > 0 ==> !key_lt(
            streams[j][0].0,
            streams[l][0].0,
        ) && (j < l ==> streams[j][0].0 != streams[l][0].0)
}

/// The streams behind a key: every stream that starts with it moves on by one.
pub open spec fn past(streams: Seq<Seq<Pair>>, key: Seq<u8>) -> Seq<Seq<Pair>> {
    Seq::new(
        streams.len(),
        |i: int|
            if streams[i].len() > 0 && streams[i][0].0 == key {
                streams[i].skip(1)
            } else {
                streams[i]
            },
    )
}

/// No stream holds anything.
pub open spec fn exhausted(streams: Seq<Seq<Pair>>) -> bool {
    forall|i: int| 0 <= i < streams.len() ==> (#[trigger] streams[i]).len() == 0
}

/// The number of pairs in all streams.
pub open spec fn total_pairs(streams: Seq<Seq<Pair>>) -> nat
    decreases streams.len(),
{
    if streams.len() == 0 {
        0
    } else {
        total_pairs(streams.drop_last()) + streams.last().len()
    }
}

/// The merge of the streams. Where several start with the same least key, the
/// earliest of them gives the value and all of them move on; a tombstone hides
/// the key and is itself dropped.
pub open spec fn merged(streams: Seq<Seq<Pair>>) -> Seq<Pair>
    decreases total_pairs(streams),
{
    if exhausted(streams) {
        Seq::empty()
    } else {
        let p = streams[choose|l: int| leads(streams, l)][0];
        proof {
            lemma_some_stream_leads(streams);
            lemma_past_is_shorter(streams, choose|l: int| leads(streams, l));
        }
        let rest = merged(past(streams, p.0));
        if p.1 == tombstone() {
            rest
        } else {
            seq![p] + rest
        }
    }
}

/// The value for the key in the earliest stream that holds it.
pub open spec fn newest(streams: Seq<Seq<Pair>>, key: Seq<u8>) -> Option<Seq<u8>>
    decreases streams.len(),
{
    if streams.len() == 0 {
        None
    } else if lookup(streams[0], key) is Some {
        lookup(streams[0], key)
    } else {
        newest(streams.skip(1), key)
    }
}

/// What a reader sees of what was found.
pub open spec fn seen_of(stored: Option<Seq<u8>>) -> Option<Seq<u8>> {
    match stored {
        Some(value) => visible(value),
        None => None,
    }
}

/// Every stream is sorted.
pub open spec fn all_sorted(streams: Seq<Seq<Pair>>) -> bool {
    forall|i: int| 0 <= i < streams.len() ==> strictly_sorted(#[trigger] streams[i])
}

/// Every table is open.
pub open spec fn all_wf(readers: Seq<SsTableReader>) -> bool {
    forall|i: int| 0 <= i < readers.len() ==> (#[trigger] readers[i]).wf()
}

/// Every table can be read to its end.
pub open spec fn all_readable(readers: Seq<SsTableReader>) -> bool {
    forall|i: int| 0 <= i < readers.len() ==> (#[trigger] readers[i])@.pairs() is Some
}

/// The pairs of every table.
pub open spec fn streams_of(readers: Seq<SsTableReader>) -> Seq<Seq<Pair>> {
    Seq::new(readers.len(), |i: int| readers[i]@.pairs()->0)
}

/// One of the streams being merged: its first pair, and the others.
struct Source {
    head: Option<(Vec<u8>, Vec<u8>)>,
    rest: SsTableIter,
}

impl View for Source {
    type V = Seq<Pair>;

    closed spec fn view(&self) -> Seq<Pair> {
        match self.head {
            Some((key, value)) => seq![(key@, value@)] + self.rest@,
            None => self.rest@,
        }
    }
}

impl Source {
    /// A stream without a first pair holds no others.
    spec fn wf(&self) -> bool {
        self.head is None ==> self.rest@.len() == 0
    }

    fn new(rest: SsTableIter) -> (source: Source)
        ensures
            source.wf(),
            source@ == rest@,
    {
        let ghost all = rest@;
        let mut rest = rest;
        let head = rest.next();
        let source = Source { head, rest };
        assert(source@ =~= all);
        source
    }

    /// Removes the first pair.
    fn advance(&mut self) -> (head: Option<(Vec<u8>, Vec<u8>)>)
        requires
            old(self).wf(),
        ensures
            final(self).wf(),
            match head {
                Some((key, value)) => old(self)@.len() > 0 && (key@, value@) == old(self)@[0]
                    && final(self)@ == old(self)@.skip(1),
                None => old(self)@.len() == 0 && final(self)@ == old(self)@,
            },
    {
        let ghost before = self@;
        let mut head = self.rest.next();
        std::mem::swap(&mut head, &mut self.head);
        assert(before.len() > 0 ==> self@ =~= before.skip(1));
        assert(before.len() == 0 ==> self@ =~= before);
        head
    }

    /// The first key.
    fn key(&self) -> (key: Option<&Vec<u8>>)
        requires
            self.wf(),
        ensures
            match key {
                Some(k) => self@.len() > 0 && k@ == self@[0].0,
                None => self@.len() == 0,
            },
    {
        match &self.head {
            Some((key, _)) => Some(key),
            None => None,
        }
    }
}

spec fn sources_wf(sources: Seq<Source>) -> bool {
    forall|i: int| 0 <= i < sources.len() ==> (#[trigger] sources[i]).wf()
}

spec fn views_of(sources: Seq<Source>) -> Seq<Seq<Pair>> {
    Seq::new(sources.len(), |i: int| sources[i]@)
}

/// The stream to read next.
fn leader(sources: &Vec<Source>) -> (l: Option<usize>)
    requires
        sources_wf(sources@),
    ensures
        match l {
            Some(l) => leads(views_of(sources@), l as int),
            None => exhausted(views_of(sources@)),
        },
{
    let mut best: Option<usize> = None;
    let mut i: usize = 0;
    let ghost streams = views_of(sources@);
    while i < sources.len()
        invariant
            sources_wf(sources@),
            streams == views_of(sources@),
            0 <= i <= sources.len(),
            match best {
                Some(l) => l < i && leads(streams.take(i as int), l as int),
                None => exhausted(streams.take(i as int)),
            },
        decreases sources.len() - i,
    {
        let ghost seen = streams.take(i as int);
        let ghost next = streams.take(i + 1);
        assert(forall|j: int| 0 <= j < i ==> next[j] == seen[j]);
        assert(next[i as int] == sources[i as int]@);
        match sources[i].key() {
            None => {
                assert(next[i as int].len() == 0);
            },
            Some(key) => {
                match best {
                    None => {
                        proof {
                            lemma_key_lt_irreflexive(key@);
                            assert forall|j: int|
                                0 <= j < next.len() && (#[trigger] next[j]).len() > 0 implies j
                                == i by {
                                if j < i {
                                    assert(seen[j].len() == 0);
                                }
                            }
                        }
                        best = Some(i);
                    },
                    Some(l) => {
                        assert(seen[l as int] == next[l as int]);
                        match sources[l].key() {
                            None => {},
                            Some(best_key) => {
                                let order = compare_keys(key.as_slice(), best_key.as_slice());
                                if order == KeyOrder::Less {
                                    proof {
                                        lemma_key_lt_irreflexive(key@);
                                        assert forall|j: int|
                                            0 <= j < next.len() && (#[trigger] next[j]).len()
                                                > 0 implies !key_lt(next[j][0].0, key@) && (j < i
                                            ==> next[j][0].0 != key@) by {
                                            if j < i {
                                                assert(seen[j].len() > 0);
                                                if key_lt(next[j][0].0, key@) {
                                                    lemma_key_lt_transitive(
                                                        next[j][0].0,
                                                        key@,
                                                        best_key@,
                                                    );
                                                }
                                            }
                                        }
                                    }
                                    best = Some(i);
                                } else {
                                    proof {
                                        assert forall|j: int|
                                            0 <= j < next.len() && (#[trigger] next[j]).len()
                                                > 0 implies !key_lt(
                                            next[j][0].0,
                                            next[l as int][0].0,
                                        ) && (j < l ==> next[j][0].0 != next[l as int][0].0) by {
                                            if j < i {
                                                assert(seen[j].len() > 0);
                                            }
                                        }
                                    }
                                }
                            },
                        }
                    },
                }
            },
        }
        i = i + 1;
    }
    assert(streams.take(sources.len() as int) =~= streams);
    best
}

/// Takes the first pair of the `l`-th stream and moves every other stream that
/// starts with the same key on by one.
fn take_first(sources: &mut Vec<Source>, l: usize) -> (pair: Option<(Vec<u8>, Vec<u8>)>)
    requires
        sources_wf(old(sources)@),
        l < old(sources)@.len(),
        views_of(old(sources)@)[l as int].len() > 0,
    ensures
        sources_wf(final(sources)@),
        match pair {
            Some((key, value)) => {
                &&& (key@, value@) == views_of(old(sources)@)[l as int][0]
                &&& views_of(final(sources)@) == past(views_of(old(sources)@), key@)
            },
            None => false,
        },
{
    let ghost streams = views_of(sources@);
    let ghost at_start = sources@;
    assert(streams[l as int] == sources@[l as int]@);
    let (key, value) = match sources[l].advance() {
        Some(pair) => pair,
        None => return None,
    };
    let ghost expected = past(streams, key@);
    assert forall|j: int| 0 <= j < sources@.len() && j != l implies (#[trigger] sources@[j])@
        == streams[j] by {
        assert(sources@[j] == at_start[j]);
    }
    let mut i: usize = 0;
    while i < sources.len()
        invariant
            0 <= i <= sources.len(),
            l < sources.len(),
            sources.len() == streams.len(),
            expected == past(streams, key@),
            sources_wf(sources@),
            sources@[l as int]@ == expected[l as int],
            forall|j: int| 0 <= j < i ==> (#[trigger] sources@[j])@ == expected[j],
            forall|j: int|
                i <= j < sources.len() && j != l ==> (#[trigger] sources@[j])@ == streams[j],
        decreases sources.len() - i,
    {
        let ghost before = sources@;
        if i != l {
            let starts_with_key = match sources[i].key() {
                Some(k) => compare_keys(k.as_slice(), key.as_slice()) == KeyOrder::Equal,
                None => false,
            };
            if starts_with_key {
                let _ = sources[i].advance();
            }
            assert(sources@[i as int]@ == expected[i as int]);
            assert forall|j: int| 0 <= j < sources.len() && j != i implies (#[trigger] sources@[j])
                == before[j] by {}
        }
        i = i + 1;
    }
    assert(views_of(sources@) =~= expected);
    Some((key, value))
}

/// The streams at their start.
fn start(iters: Vec<SsTableIter>) -> (sources: Vec<Source>)
    ensures
        sources_wf(sources@),
        sources@.len() == iters@.len(),
        forall|i: int| 0 <= i < iters@.len() ==> (#[trigger] sources@[i])@ == iters@[i]@,
{
    let ghost all = iters@;
    let mut sources: Vec<Source> = Vec::new();
    for it in walk: iters
        invariant
            walk.seq() == all,
            sources@.len() == walk.index(),
            sources_wf(sources@),
            forall|i: int| 0 <= i < sources@.len() ==> (#[trigger] sources@[i])@ == all[i]@,
    {
        sources.push(Source::new(it));
    }
    sources
}

/// Every file holds a table.
pub open spec fn all_open(files: Seq<Vec<u8>>) -> bool {
    forall|i: int| 0 <= i < files.len() ==> opened((#[trigger] files[i])@) is Some
}

/// Opens the files of the tables to merge, in order.
pub fn open_inputs(files: Vec<Vec<u8>>) -> (result: Result<Vec<SsTableReader>, CompactionError>)
    ensures
        match result {
            Ok(readers) => {
                &&& all_open(files@)
                &&& all_wf(readers@)
                &&& readers@.len() == files@.len()
                &&& forall|i: int|
                    0 <= i < readers@.len() ==> opened(files@[i]@) == Some(
                        (#[trigger] readers@[i])@,
                    )
            },
            Err(e) => !all_open(files@) && e == CompactionError::Io,
        },
{
    let ghost all = files@;
    let mut readers: Vec<SsTableReader> = Vec::new();
    for file in walk: files
        invariant
            walk.seq() == all,
            readers@.len() == walk.index(),
            all_wf(readers@),
            forall|i: int|
                0 <= i < readers@.len() ==> opened(all[i]@) == Some((#[trigger] readers@[i])@),
    {
        assert(file == all[walk.index() as int]);
        match SsTableReader::open(file) {
            Ok(reader) => {
                readers.push(reader);
            },
            Err(e) => {
                assert(opened(all[walk.index() as int]@) is None);
                return Err(CompactionError::from(e));
            },
        }
    }
    assert forall|i: int| 0 <= i < all.len() implies opened((#[trigger] all[i])@) is Some by {
        assert(opened(all[i]@) == Some(readers@[i]@));
    }
    Ok(readers)
}

/// Starts reading every table.
fn iterate(readers: &Vec<SsTableReader>) -> (result: Result<Vec<SsTableIter>, CompactionError>)
    requires
        all_wf(readers@),
    ensures
        match result {
            Ok(iters) => {
                &&& all_readable(readers@)
                &&& iters@.len() == readers@.len()
                &&& forall|i: int|
                    0 <= i < iters@.len() ==> (#[trigger] iters@[i])@ == streams_of(readers@)[i]
            },
            Err(e) => !all_readable(readers@) && e == CompactionError::Io,
        },
{
    let mut iters: Vec<SsTableIter> = Vec::new();
    let mut i: usize = 0;
    while i < readers.len()
        invariant
            all_wf(readers@),
            0 <= i <= readers.len(),
            iters@.len() == i,
            forall|j: int| 0 <= j < i ==> (#[trigger] readers@[j])@.pairs() is Some,
            forall|j: int| 0 <= j < i ==> (#[trigger] iters@[j])@ == streams_of(readers@)[j],
        decreases readers.len() - i,
    {
        match readers[i].iter() {
            Ok(it) => {
                iters.push(it);
            },
            Err(e) => {
                assert(readers@[i as int]@.pairs() is None);
                return Err(CompactionError::from(e));
            },
        }
        i = i + 1;
    }
    Ok(iters)
}

/// How many pairs the tables hold together: an upper bound for the number of
/// keys in their merge.
pub fn expected_keys(readers: &Vec<SsTableReader>) -> (result: Result<usize, CompactionError>)
    requires
        all_wf(readers@),
        all_readable(readers@) ==> total_pairs(streams_of(readers@)) <= usize::MAX,
    ensures
        match result {
            Ok(n) => all_readable(readers@) && n == total_pairs(streams_of(readers@)),
            Err(e) => !all_readable(readers@) && e == CompactionError::Io,
        },
{
    let mut iters = match iterate(readers) {
        Ok(iters) => iters,
        Err(e) => return Err(e),
    };
    let ghost streams = streams_of(readers@);
    let mut n: usize = 0;
    assert(streams.take(streams.len() as int) =~= streams);
    while iters.len() > 0
        invariant
            iters@.len() <= streams.len(),
            forall|j: int| 0 <= j < iters@.len() ==> (#[trigger] iters@[j])@ == streams[j],
            n + total_pairs(streams.take(iters@.len() as int)) == total_pairs(streams),
            total_pairs(streams) <= usize::MAX,
        decreases iters.len(),
    {
        let ghost before = iters@;
        match iters.pop() {
            Some(it) => {
                proof {
                    let len = before.len() as int;
                    assert(it == before[len - 1]);
                    assert(streams.take(len).drop_last() =~= streams.take(len - 1));
                }
                n = n + it.count();
            },
            None => {},
        }
    }
    assert(streams.take(0) =~= Seq::<Seq<Pair>>::empty());
    Ok(n)
}

/// Merges the tables into the file of one, with a filter of `m` bits and `k` hash
/// functions. Of a key that several tables hold, the value of the first of them
/// is kept; deleted keys are left out.
pub fn merge_sstables(readers: Vec<SsTableReader>, m: usize, k: usize) -> (result: Result<
    Vec<u8>,
    CompactionError,
>)
    requires
        all_wf(readers@),
        k > 0 ==> m > 0,
    ensures
        match result {
            Ok(file) => {
                &&& all_readable(readers@)
                &&& file@ == table_file(merged(streams_of(readers@)), m as nat, k as nat)
            },
            Err(e) => !all_readable(readers@) && e == CompactionError::Io,
        },
{
    let iters = match iterate(&readers) {
        Ok(iters) => iters,
        Err(e) => return Err(e),
    };
    let mut writer = SsTableWriter::new(m, k);
    let ghost streams = streams_of(readers@);
    let mut sources = start(iters);
    assert(views_of(sources@) =~= streams);
    let ghost whole = merged(streams);
    assert(writer.entries() + whole =~= whole);
    loop
        invariant
            sources_wf(sources@),
            writer.wf(),
            writer.filter_bits() == m,
            writer.filter_hashes() == k,
            writer.entries() + merged(views_of(sources@)) == whole,
        ensures
            writer.wf(),
            writer.filter_bits() == m,
            writer.filter_hashes() == k,
            writer.entries() == whole,
        decreases total_pairs(views_of(sources@)),
    {
        let ghost now = views_of(sources@);
        let ghost so_far = writer.entries();
        let l: usize = match leader(&sources) {
            Some(l) => l,
            None => {
                assert(so_far + merged(now) =~= so_far);
                break ;
            },
        };
        assert(now[l as int] == sources@[l as int]@);
        proof {
            lemma_merged_step(now, l as int);
            lemma_past_is_shorter(now, l as int);
        }
        let (key, value) = match take_first(&mut sources, l) {
            Some(pair) => pair,
            None => {
                break ;
            },
        };
        if !is_tombstone(value.as_slice()) {
            writer.add(key.as_slice(), value.as_slice());
            assert(so_far.push((key@, value@)) + merged(past(now, key@)) =~= so_far + merged(now));
        }
    }
    Ok(writer.finish())
}

/// Where there is anything left to read, some stream comes next.
pub proof fn lemma_some_stream_leads(streams: Seq<Seq<Pair>>)
    ensures
        exhausted(streams) || exists|l: int| leads(streams, l),
    decreases streams.len(),
{
    if streams.len() > 0 && !exhausted(streams) {
        let front = streams.drop_last();
        let n = streams.len() - 1;
        assert(forall|j: int| 0 <= j < n ==> front[j] == streams[j]);
        lemma_some_stream_leads(front);
        if exhausted(front) {
            lemma_key_lt_irreflexive(streams[n][0].0);
            assert forall|j: int| 0 <= j < streams.len() && (#[trigger] streams[j]).len()
                > 0 implies j == n by {
                if j < n {
                    assert(front[j].len() == 0);
                }
            }
            assert(leads(streams, n));
        } else {
            let l = choose|l: int| leads(front, l);
            let best = front[l][0].0;
            assert(streams[l] == front[l]);
            if streams[n].len() > 0 && key_lt(streams[n][0].0, best) {
                let key = streams[n][0].0;
                lemma_key_lt_irreflexive(key);
                assert forall|j: int| 0 <= j < streams.len() && (#[trigger] streams[j]).len()
                    > 0 implies !key_lt(streams[j][0].0, key) && (j < n ==> streams[j][0].0
                    != key) by {
                    if j < n {
                        assert(front[j].len() > 0);
                        if key_lt(streams[j][0].0, key) {
                            lemma_key_lt_transitive(streams[j][0].0, key, best);
                        }
                    }
                }
                assert(leads(streams, n));
            } else {
                assert forall|j: int| 0 <= j < streams.len() && (#[trigger] streams[j]).len()
                    > 0 implies !key_lt(streams[j][0].0, streams[l][0].0) && (j < l
                    ==> streams[j][0].0 != streams[l][0].0) by {
                    if j < n {
                        assert(front[j].len() > 0);
                    }
                }
                assert(leads(streams, l));
            }
        }
    }
}

/// At most one stream comes next.
pub proof fn lemma_leader_unique(streams: Seq<Seq<Pair>>, a: int, b: int)
    requires
        leads(streams, a),
        leads(streams, b),
    ensures
        a == b,
{
    assert(streams[a].len() > 0 && streams[b].len() > 0);
    lemma_key_lt_total(streams[a][0].0, streams[b][0].0);
}

/// Moving on makes the streams shorter.
pub proof fn lemma_past_is_shorter(streams: Seq<Seq<Pair>>, l: int)
    requires
        0 <= l < streams.len(),
        streams[l].len() > 0,
    ensures
        total_pairs(past(streams, streams[l][0].0)) < total_pairs(streams),
{
    lemma_past_length(streams, streams[l][0].0);
}

proof fn lemma_past_length(streams: Seq<Seq<Pair>>, key: Seq<u8>)
    ensures
        total_pairs(past(streams, key)) <= total_pairs(streams),
        (exists|i: int|
            0 <= i < streams.len() && (#[trigger] streams[i]).len() > 0 && streams[i][0].0
                == key) ==> total_pairs(past(streams, key)) < total_pairs(streams),
    decreases streams.len(),
{
    if streams.len() > 0 {
        let front = streams.drop_last();
        lemma_past_length(front, key);
        assert(past(streams, key).drop_last() =~= past(front, key));
        if exists|i: int|
            0 <= i < streams.len() && (#[trigger] streams[i]).len() > 0 && streams[i][0].0 == key {
            let i = choose|i: int|
                0 <= i < streams.len() && (#[trigger] streams[i]).len() > 0 && streams[i][0].0
                    == key;
            if i < front.len() {
                assert(front[i] == streams[i]);
            }
        }
    }
}

/// One step of the merge.
proof fn lemma_merged_step(streams: Seq<Seq<Pair>>, l: int)
    requires
        leads(streams, l),
    ensures
        merged(streams) == (if streams[l][0].1 == tombstone() {
            merged(past(streams, streams[l][0].0))
        } else {
            seq![streams[l][0]] + merged(past(streams, streams[l][0].0))
        }),
{
    assert(streams[l].len() > 0);
    let c = choose|c: int| leads(streams, c);
    lemma_leader_unique(streams, l, c);
}

/// The merge holds no more keys than the streams hold pairs, and no tombstone.
pub proof fn law_merge_drops_tombstones(streams: Seq<Seq<Pair>>)
    ensures
        merged(streams).len() <= total_pairs(streams),
        forall|i: int| 0 <= i < merged(streams).len() ==> (#[trigger] merged(streams)[i]).1
            != tombstone(),
    decreases total_pairs(streams),
{
    if !exhausted(streams) {
        lemma_some_stream_leads(streams);
        let l = choose|l: int| leads(streams, l);
        lemma_merged_step(streams, l);
        lemma_past_is_shorter(streams, l);
        let rest = past(streams, streams[l][0].0);
        law_merge_drops_tombstones(rest);
        if streams[l][0].1 != tombstone() {
            assert forall|i: int| 0 <= i < merged(streams).len() implies (#[trigger] merged(
                streams,
            )[i]).1 != tombstone() by {
                if i > 0 {
                    assert(merged(streams)[i] == merged(rest)[i - 1]);
                }
            }
        }
    }
}

/// Moving on past the least key removes it from every sorted stream and leaves
/// every other key as it was; all keys left come behind it.
proof fn lemma_past_sorted(streams: Seq<Seq<Pair>>, l: int)
    requires
        all_sorted(streams),
        leads(streams, l),
    ensures
        all_sorted(past(streams, streams[l][0].0)),
        forall|i: int, n: int|
            0 <= i < streams.len() && 0 <= n < past(streams, streams[l][0].0)[i].len() ==> key_lt(
                streams[l][0].0,
                (#[trigger] past(streams, streams[l][0].0)[i][n]).0,
            ),
        forall|i: int, key: Seq<u8>|
            0 <= i < streams.len() && key != streams[l][0].0 ==> #[trigger] lookup(
                past(streams, streams[l][0].0)[i],
                key,
            ) == lookup(streams[i], key),
{
    let least = streams[l][0].0;
    let after = past(streams, least);
    assert forall|i: int| 0 <= i < after.len() implies strictly_sorted(#[trigger] after[i]) by {
        assert(strictly_sorted(streams[i]));
        if streams[i].len() > 0 {
            lemma_tail_sorted(streams[i]);
        }
    }
    assert forall|i: int, n: int| 0 <= i < streams.len() && 0 <= n < after[i].len() implies key_lt(
        least,
        (#[trigger] after[i][n]).0,
    ) by {
        let s = streams[i];
        assert(strictly_sorted(s));
        assert(s.len() > 0);
        lemma_key_lt_total(s[0].0, least);
        if s[0].0 == least {
            assert(after[i][n] == s[n + 1]);
            assert(key_lt(s[0].0, s[n + 1].0));
        } else {
            assert(after[i][n] == s[n]);
            if n > 0 {
                lemma_key_lt_transitive(least, s[0].0, s[n].0);
            }
        }
    }
}

/// Without a key in any stream nothing is found.
proof fn lemma_newest_absent(streams: Seq<Seq<Pair>>, key: Seq<u8>)
    requires
        forall|i: int| 0 <= i < streams.len() ==> lookup(#[trigger] streams[i], key) is None,
    ensures
        newest(streams, key) is None,
    decreases streams.len(),
{
    if streams.len() > 0 {
        let rest = streams.skip(1);
        assert forall|i: int| 0 <= i < rest.len() implies lookup(#[trigger] rest[i], key) is None by {
            assert(rest[i] == streams[i + 1]);
        }
        lemma_newest_absent(rest, key);
        assert(lookup(streams[0], key) is None);
    }
}

/// The earliest stream with the key decides.
proof fn lemma_newest_at(streams: Seq<Seq<Pair>>, key: Seq<u8>, l: int)
    requires
        0 <= l < streams.len(),
        lookup(streams[l], key) is Some,
        forall|i: int| 0 <= i < l ==> lookup(#[trigger] streams[i], key) is None,
    ensures
        newest(streams, key) == lookup(streams[l], key),
    decreases streams.len(),
{
    if l > 0 {
        let rest = streams.skip(1);
        assert forall|i: int| 0 <= i < l - 1 implies lookup(#[trigger] rest[i], key) is None by {
            assert(rest[i] == streams[i + 1]);
        }
        assert(rest[l - 1] == streams[l]);
        lemma_newest_at(rest, key, l - 1);
        assert(lookup(streams[0], key) is None);
    }
}

/// Streams that agree on a key give the same value for it.
proof fn lemma_newest_same(a: Seq<Seq<Pair>>, b: Seq<Seq<Pair>>, key: Seq<u8>)
    requires
        a.len() == b.len(),
        forall|i: int| 0 <= i < a.len() ==> lookup(#[trigger] a[i], key) == lookup(b[i], key),
    ensures
        newest(a, key) == newest(b, key),
    decreases a.len(),
{
    if a.len() > 0 {
        assert(lookup(a[0], key) == lookup(b[0], key));
        let ra = a.skip(1);
        let rb = b.skip(1);
        assert forall|i: int| 0 <= i < ra.len() implies lookup(#[trigger] ra[i], key) == lookup(
            rb[i],
            key,
        ) by {
            assert(ra[i] == a[i + 1] && rb[i] == b[i + 1]);
        }
        lemma_newest_same(ra, rb, key);
    }
}

/// A key of the merge is a key of some stream.
proof fn lemma_merged_key(streams: Seq<Seq<Pair>>, n: int) -> (at: (int, int))
    requires
        0 <= n < merged(streams).len(),
    ensures
        0 <= at.0 < streams.len(),
        0 <= at.1 < streams[at.0].len(),
        streams[at.0][at.1] == merged(streams)[n],
    decreases total_pairs(streams),
{
    lemma_some_stream_leads(streams);
    let l = choose|l: int| leads(streams, l);
    lemma_merged_step(streams, l);
    lemma_past_is_shorter(streams, l);
    let p = streams[l][0];
    let rest = past(streams, p.0);
    if p.1 != tombstone() && n == 0 {
        (l, 0)
    } else {
        let n0 = if p.1 == tombstone() { n } else { n - 1 };
        let at = lemma_merged_key(rest, n0);
        let s = streams[at.0];
        if s.len() > 0 && s[0].0 == p.0 {
            (at.0, at.1 + 1)
        } else {
            at
        }
    }
}

/// Merging sorted streams gives a sorted list without repeated keys that holds of
/// every key what a reader sees of its value in the earliest stream that has it.
pub proof fn law_merge_keeps_newest(streams: Seq<Seq<Pair>>)
    requires
        all_sorted(streams),
    ensures
        strictly_sorted(merged(streams)),
        forall|key: Seq<u8>| #[trigger]
            lookup(merged(streams), key) == seen_of(newest(streams, key)),
    decreases total_pairs(streams),
{
    let out = merged(streams);
    if exhausted(streams) {
        assert forall|key: Seq<u8>| #[trigger] lookup(out, key) == seen_of(newest(streams, key)) by {
            assert forall|i: int| 0 <= i < streams.len() implies lookup(
                #[trigger] streams[i],
                key,
            ) is None by {
                assert(streams[i].len() == 0);
            }
            lemma_newest_absent(streams, key);
        }
    } else {
        lemma_some_stream_leads(streams);
        let l = choose|l: int| leads(streams, l);
        let p = streams[l][0];
        let rest = past(streams, p.0);
        lemma_merged_step(streams, l);
        lemma_past_is_shorter(streams, l);
        lemma_past_sorted(streams, l);
        law_merge_keeps_newest(rest);
        let tail = merged(rest);
        assert forall|n: int| 0 <= n < tail.len() implies key_lt(p.0, (#[trigger] tail[n]).0) by {
            let at = lemma_merged_key(rest, n);
            assert(rest[at.0][at.1] == tail[n]);
        }
        assert forall|i: int, j: int| 0 <= i < j < out.len() implies key_lt(
            #[trigger] out[i].0,
            #[trigger] out[j].0,
        ) by {
            if p.1 != tombstone() {
                assert(out[j] == tail[j - 1]);
                if i > 0 {
                    assert(out[i] == tail[i - 1]);
                }
            }
        }
        assert forall|key: Seq<u8>| #[trigger] lookup(out, key) == seen_of(newest(streams, key)) by {
            assert(lookup(tail, key) == seen_of(newest(rest, key)));
            if p.1 != tombstone() {
                assert(out.skip(1) =~= tail);
            }
            if key == p.0 {
                lemma_least_key(streams, l);
                assert forall|n: int| 0 <= n < tail.len() implies (#[trigger] tail[n]).0 != key by {
                    lemma_key_lt_asymmetric(p.0, tail[n].0);
                }
                lemma_lookup_absent(tail, key);
            } else {
                assert forall|i: int| 0 <= i < rest.len() implies lookup(#[trigger] rest[i], key)
                    == lookup(streams[i], key) by {}
                lemma_newest_same(rest, streams, key);
            }
        }
    }
}

/// The stream that comes next decides the value of its first key.
proof fn lemma_least_key(streams: Seq<Seq<Pair>>, l: int)
    requires
        all_sorted(streams),
        leads(streams, l),
    ensures
        newest(streams, streams[l][0].0) == Some(streams[l][0].1),
{
    let key = streams[l][0].0;
    assert(strictly_sorted(streams[l]));
    lemma_lookup_sorted(streams[l], 0);
    assert forall|i: int| 0 <= i < l implies lookup(#[trigger] streams[i], key) is None by {
        let s = streams[i];
        assert(strictly_sorted(s));
        if lookup(s, key) is Some {
            let n = lemma_lookup_found(s, key);
            assert(s.len() > 0);
            if n > 0 {
                assert(key_lt(s[0].0, s[n].0));
            }
        }
    }
    lemma_newest_at(streams, key, l);
}

/// Where no stream holds anything, the merge is empty. Else the least of the first keys
/// comes next, with the value of the earliest stream that starts with it, unless that is
/// the tombstone; every stream that starts with that key moves on.
pub proof fn law_merge_takes_the_least_key(streams: Seq<Seq<Pair>>, l: int, rest: Seq<Seq<Pair>>)
    requires
        rest.len() == streams.len(),
        0 <= l < streams.len(),
        streams[l].len() > 0,
        forall|j: int|
            0 <= j < streams.len() && (#[trigger] streams[j]).len() > 0 ==> !key_lt(
                streams[j][0].0,
                streams[l][0].0,
            ) && (j < l ==> streams[j][0].0 != streams[l][0].0),
        forall|j: int|
            0 <= j < rest.len() ==> (#[trigger] rest[j]) == (if streams[j].len() > 0
                && streams[j][0].0 == streams[l][0].0 {
                streams[j].skip(1)
            } else {
                streams[j]
            }),
    ensures
        merged(streams) == (if visible(streams[l][0].1) is None {
            merged(rest)
        } else {
            seq![streams[l][0]] + merged(rest)
        }),
{
    assert(leads(streams, l));
    assert(rest =~= past(streams, streams[l][0].0));
    lemma_merged_step(streams, l);
}

/// Streams that hold nothing merge into nothing.
pub proof fn law_empty_streams_merge_into_nothing(streams: Seq<Seq<Pair>>)
    requires
        forall|j: int| 0 <= j < streams.len() ==> (#[trigger] streams[j]).len() == 0,
    ensures
        merged(streams).len() == 0,
        total_pairs(streams) == 0,
    decreases streams.len(),
{
    assert(exhausted(streams));
    if streams.len() > 0 {
        let front = streams.drop_last();
        assert forall|j: int| 0 <= j < front.len() implies (#[trigger] front[j]).len() == 0 by {
            assert(front[j] == streams[j]);
        }
        law_empty_streams_merge_into_nothing(front);
        assert(streams[streams.len() - 1].len() == 0);
    }
}

/// The earliest stream that holds the key gives its value.
pub proof fn law_newest_is_the_earliest_match(streams: Seq<Seq<Pair>>, key: Seq<u8>, value: Seq<u8>)
    ensures
        newest(streams, key) == Some(value) <==> exists|i: int|
            0 <= i < streams.len() && lookup(#[trigger] streams[i], key) == Some(value) && forall|
                j: int,
            |
                0 <= j < i ==> lookup(#[trigger] streams[j], key) is None,
    decreases streams.len(),
{
    if streams.len() > 0 {
        let rest = streams.skip(1);
        law_newest_is_the_earliest_match(rest, key, value);
        if lookup(streams[0], key) is Some {
            if newest(streams, key) == Some(value) {
                assert(lookup(streams[0], key) == Some(value));
            }
        } else {
            if newest(streams, key) == Some(value) {
                let i = choose|i: int|
                    0 <= i < rest.len() && lookup(#[trigger] rest[i], key) == Some(value)
                        && forall|j: int| 0 <= j < i ==> lookup(#[trigger] rest[j], key) is None;
                assert(streams[i + 1] == rest[i]);
                assert forall|j: int| 0 <= j < i + 1 implies lookup(
                    #[trigger] streams[j],
                    key,
                ) is None by {
                    if j > 0 {
                        assert(streams[j] == rest[j - 1]);
                    }
                }
                assert(lookup(streams[i + 1], key) == Some(value));
            }
            if exists|i: int|
                0 <= i < streams.len() && lookup(#[trigger] streams[i], key) == Some(value)
                    && forall|j: int| 0 <= j < i ==> lookup(#[trigger] streams[j], key) is None {
                let i = choose|i: int|
                    0 <= i < streams.len() && lookup(#[trigger] streams[i], key) == Some(value)
                        && forall|j: int|
                        0 <= j < i ==> lookup(#[trigger] streams[j], key) is None;
                assert(rest[i - 1] == streams[i]);
                assert forall|j: int| 0 <= j < i - 1 implies lookup(
                    #[trigger] rest[j],
                    key,
                ) is None by {
                    assert(rest[j] == streams[j + 1]);
                }
                assert(lookup(rest[i - 1], key) == Some(value));
            }
        }
    }
}

/// The merge of sorted streams holds a pair exactly if a reader sees its value, some
/// stream holds the pair, and no earlier stream holds its key; and its keys increase.
pub proof fn law_merge_holds_the_earliest_seen_pairs(
    streams: Seq<Seq<Pair>>,
    key: Seq<u8>,
    value: Seq<u8>,
)
    requires
        all_sorted(streams),
    ensures
        merged(streams).contains((key, value)) <==> visible(value) is Some && exists|i: int|
            0 <= i < streams.len() && (#[trigger] streams[i]).contains((key, value)) && forall|
                j: int,
            |
                0 <= j < i ==> lookup(#[trigger] streams[j], key) is None,
        forall|i: int, j: int|
            0 <= i < j < merged(streams).len() ==> key_lt(
                #[trigger] merged(streams)[i].0,
                #[trigger] merged(streams)[j].0,
            ),
{
    let out = merged(streams);
    law_merge_keeps_newest(streams);
    law_newest_is_the_earliest_match(streams, key, value);
    assert(lookup(out, key) == seen_of(newest(streams, key)));
    if out.contains((key, value)) {
        let n = choose|n: int| 0 <= n < out.len() && out[n] == (key, value);
        lemma_lookup_sorted(out, n);
        let i = choose|i: int|
            0 <= i < streams.len() && lookup(#[trigger] streams[i], key) == Some(value) && forall|
                j: int,
            |
                0 <= j < i ==> lookup(#[trigger] streams[j], key) is None;
        let at = lemma_lookup_found(streams[i], key);
        assert(streams[i].contains((key, value))) by {
            assert(streams[i][at] == (key, value));
        }
    }
    if visible(value) is Some && exists|i: int|
        0 <= i < streams.len() && (#[trigger] streams[i]).contains((key, value)) && forall|j: int|
            0 <= j < i ==> lookup(#[trigger] streams[j], key) is None {
        let i = choose|i: int|
            0 <= i < streams.len() && (#[trigger] streams[i]).contains((key, value)) && forall|
                j: int,
            |
                0 <= j < i ==> lookup(#[trigger] streams[j], key) is None;
        let at = choose|at: int| 0 <= at < streams[i].len() && streams[i][at] == (key, value);
        lemma_lookup_sorted(streams[i], at);
        assert(lookup(streams[i], key) == Some(value));
        assert(newest(streams, key) == Some(value));
        let n = lemma_lookup_found(out, key);
        assert(out[n] == (key, value));
    }
}

/// The number of pairs is counted stream by stream, and the streams that are merged are
/// the pairs of every table, in the order of the tables.
pub proof fn law_every_table_is_merged(
    readers: Seq<SsTableReader>,
    streams: Seq<Seq<Pair>>,
    stream: Seq<Pair>,
    i: int,
    stored: Option<Seq<u8>>,
)
    ensures
        total_pairs(streams.push(stream)) == total_pairs(streams) + stream.len(),
        streams_of(readers).len() == readers.len(),
        0 <= i < readers.len() && all_readable(readers) ==> readers[i]@.pairs() == Some(
            streams_of(readers)[i],
        ),
        0 <= i < readers.len() && readers[i]@.pairs() is None ==> !all_readable(readers),
        seen_of(None) is None,
        stored is Some ==> seen_of(stored) == visible(stored->0),
{
    assert(streams.push(stream).drop_last() =~= streams);
}

} // verus!
