//! The table in memory that every write reaches first.

use vstd::prelude::*;

use crate::order::{compare_keys, KeyOrder};
use crate::order::{key_lt, lemma_key_lt_total, lemma_key_lt_transitive};
use crate::pairs::{
    contents, in_range, lemma_live_lookup, lemma_lookup_at_rank, lemma_rank, lemma_rank_unique,
    lemma_with_pair, live, lookup, pairs_of, pairs_referred, rank, strictly_sorted, total_bytes, with_pair,
    Pair,
};
use crate::sstable::laws::{law_table_gives_back_its_pairs, storable};
use crate::sstable::reader::{index_sorted, opened};
use crate::sstable::table_file;
use crate::sstable::writer::{SsTableError, SsTableWriter};
use crate::types::{is_tombstone, tombstone_value};
use crate::types::{tombstone, visible};

verus! {

/// A sorted map from keys to values. A deletion is a value of its own, the
/// tombstone, so that it can hide an older value stored elsewhere.
pub struct MemTable {
    data: Vec<(Vec<u8>, Vec<u8>)>,
}

impl View for MemTable {
    type V = Map<Seq<u8>, Seq<u8>>;

    open spec fn view(&self) -> Map<Seq<u8>, Seq<u8>> {
        contents(self.entries())
    }
}

impl MemTable {
    /// The pairs of the table in key order.
    pub closed spec fn entries(&self) -> Seq<Pair> {
        pairs_of(self.data@)
    }

    /// The keys strictly increase.
    pub open spec fn wf(&self) -> bool {
        strictly_sorted(self.entries())
    }

    /// An empty table.
    pub fn new() -> (table: MemTable)
        ensures
            table.wf(),
            table.entries() == Seq::<Pair>::empty(),
            table@ == Map::<Seq<u8>, Seq<u8>>::empty(),
    {
        let table = MemTable { data: Vec::new() };
        assert(table.entries() =~= Seq::<Pair>::empty());
        assert(table@ =~= Map::<Seq<u8>, Seq<u8>>::empty());
        table
    }

    /// The number of keys with a value, deleted ones counted as well.
    pub fn len(&self) -> (len: usize)
        ensures
            len == self.entries().len(),
    {
        self.data.len()
    }

    /// Where the key stands, or would be inserted.
    fn rank_of(&self, key: &[u8]) -> (at: usize)
        requires
            self.wf(),
        ensures
            at == rank(self.entries(), key@),
            at <= self.data.len(),
    {
        let mut lo: usize = 0;
        let mut hi: usize = self.data.len();
        let ghost s = self.entries();
        while lo < hi
            invariant
                s == self.entries(),
                strictly_sorted(s),
                s.len() == self.data.len(),
                0 <= lo <= hi <= self.data.len(),
                forall|i: int| 0 <= i < lo ==> key_lt((#[trigger] s[i]).0, key@),
                forall|i: int| hi <= i < s.len() ==> !key_lt((#[trigger] s[i]).0, key@),
            decreases hi - lo,
        {
            let mid: usize = lo + (hi - lo) / 2;
            assert(s[mid as int].0 == self.data[mid as int].0@);
            let order = compare_keys(self.data[mid].0.as_slice(), key);
            if order == KeyOrder::Less {
                proof {
                    assert forall|i: int| 0 <= i < mid + 1 implies key_lt(
                        (#[trigger] s[i]).0,
                        key@,
                    ) by {
                        if i < mid {
                            lemma_key_lt_transitive(s[i].0, s[mid as int].0, key@);
                        }
                    }
                }
                lo = mid + 1;
            } else {
                proof {
                    assert forall|i: int| mid <= i < s.len() implies !key_lt(
                        (#[trigger] s[i]).0,
                        key@,
                    ) by {
                        if i > mid && key_lt(s[i].0, key@) {
                            lemma_key_lt_transitive(s[mid as int].0, s[i].0, key@);
                        }
                    }
                }
                hi = mid;
            }
        }
        proof {
            lemma_rank_unique(s, key@, lo as int);
        }
        lo
    }

    /// The value stored for the key, which may be the tombstone.
    pub fn get(&self, key: &[u8]) -> (value: Option<&Vec<u8>>)
        requires
            self.wf(),
        ensures
            match value {
                Some(v) => self@.contains_key(key@) && self@[key@] == v@,
                None => !self@.contains_key(key@),
            },
    {
        let at = self.rank_of(key);
        proof {
            lemma_lookup_at_rank(self.entries(), key@);
        }
        if at < self.data.len() {
            assert(self.entries()[at as int] == (self.data[at as int].0@, self.data[at as int].1@));
            if compare_keys(self.data[at].0.as_slice(), key) == KeyOrder::Equal {
                return Some(&self.data[at].1);
            }
        }
        None
    }

    /// Stores the value for the key.
    pub fn set(&mut self, key: Vec<u8>, value: Vec<u8>)
        requires
            old(self).wf(),
        ensures
            final(self).wf(),
            final(self)@ == old(self)@.insert(key@, value@),
            final(self).entries() == with_pair(old(self).entries(), key@, value@),
    {
        let at = self.rank_of(key.as_slice());
        let ghost k = key@;
        let ghost v = value@;
        let ghost before = self.data@;
        proof {
            lemma_with_pair(self.entries(), k, v);
        }
        if at < self.data.len() && compare_keys(self.data[at].0.as_slice(), key.as_slice())
            == KeyOrder::Equal {
            self.data[at] = (key, value);
            assert(pairs_of(self.data@) =~= pairs_of(before).update(at as int, (k, v)));
        } else {
            self.data.insert(at, (key, value));
            assert(pairs_of(self.data@) =~= pairs_of(before).insert(at as int, (k, v)));
        }
    }

    /// Records that the key was deleted.
    pub fn delete(&mut self, key: Vec<u8>)
        requires
            old(self).wf(),
        ensures
            final(self).wf(),
            final(self)@ == old(self)@.insert(key@, tombstone()),
            final(self).entries() == with_pair(old(self).entries(), key@, tombstone()),
    {
        self.set(key, tombstone_value());
    }

    /// The number of key and value bytes in the table.
    pub fn size_bytes(&self) -> (size: usize)
        requires
            total_bytes(self.entries()) <= usize::MAX,
        ensures
            size == total_bytes(self.entries()),
    {
        let mut size: usize = 0;
        let mut i: usize = 0;
        let ghost s = self.entries();
        assert(s.take(0) =~= Seq::<Pair>::empty());
        while i < self.data.len()
            invariant
                s == self.entries(),
                s.len() == self.data.len(),
                0 <= i <= self.data.len(),
                size == total_bytes(s.take(i as int)),
                total_bytes(s) <= usize::MAX,
            decreases self.data.len() - i,
        {
            proof {
                assert(s.take(i + 1).drop_last() =~= s.take(i as int));
                lemma_total_bytes_monotonic(s, i + 1);
                assert(s[i as int] == (self.data[i as int].0@, self.data[i as int].1@));
            }
            size = size + (self.data[i].0.len() + self.data[i].1.len());
            i = i + 1;
        }
        assert(s.take(s.len() as int) =~= s);
        size
    }

    /// The pairs that are not deleted, in key order.
    pub fn into_iter(&self) -> (pairs: Vec<(&Vec<u8>, &Vec<u8>)>)
        ensures
            pairs_referred(pairs@) == live(self.entries()),
            pairs@.len() == live(self.entries()).len(),
            forall|i: int|
                0 <= i < pairs@.len() ==> ((#[trigger] pairs@[i]).0@, pairs@[i].1@) == live(
                    self.entries(),
                )[i],
    {
        let mut pairs: Vec<(&Vec<u8>, &Vec<u8>)> = Vec::new();
        let mut i: usize = 0;
        let ghost s = self.entries();
        let ghost keep = |p: Pair| p.1 != tombstone();
        proof {
            reveal(Seq::filter);
            assert(s.take(0).filter(keep) =~= Seq::<Pair>::empty());
            assert(pairs_referred(pairs@) =~= Seq::<Pair>::empty());
        }
        while i < self.data.len()
            invariant
                s == self.entries(),
                s.len() == self.data.len(),
                0 <= i <= self.data.len(),
                keep == (|p: Pair| p.1 != tombstone()),
                pairs_referred(pairs@) == s.take(i as int).filter(keep),
            decreases self.data.len() - i,
        {
            let ghost before = pairs@;
            proof {
                reveal(Seq::filter);
                assert(s.take(i + 1).drop_last() =~= s.take(i as int));
                assert(s[i as int] == (self.data[i as int].0@, self.data[i as int].1@));
            }
            if !is_tombstone(self.data[i].1.as_slice()) {
                pairs.push((&self.data[i].0, &self.data[i].1));
                assert(pairs_referred(pairs@) =~= pairs_referred(before).push(s[i as int]));
            }
            i = i + 1;
        }
        assert(s.take(s.len() as int) =~= s);
        assert forall|i: int| 0 <= i < pairs@.len() implies ((#[trigger] pairs@[i]).0@, pairs@[i].1@)
            == live(s)[i] by {
            assert(pairs_referred(pairs@)[i] == (pairs@[i].0@, pairs@[i].1@));
        }
        pairs
    }

    /// The file of a table with the pairs that are not deleted and a filter of `m`
    /// bits and `k` hash functions.
    pub fn flush(&self, m: usize, k: usize) -> (file: Vec<u8>)
        requires
            k > 0 ==> m > 0,
        ensures
            file@ == table_file(live(self.entries()), m as nat, k as nat),
    {
        let mut writer = SsTableWriter::new(m, k);
        let pairs = self.into_iter();
        let ghost s = live(self.entries());
        let mut i: usize = 0;
        assert(writer.entries() =~= s.take(0));
        while i < pairs.len()
            invariant
                s == pairs_referred(pairs@),
                0 <= i <= pairs.len(),
                writer.wf(),
                writer.entries() == s.take(i as int),
                writer.filter_bits() == m,
                writer.filter_hashes() == k,
            decreases pairs.len() - i,
        {
            let (key, value) = pairs[i];
            writer.add(key.as_slice(), value.as_slice());
            assert(s.take(i + 1) =~= s.take(i as int).push(s[i as int]));
            i = i + 1;
        }
        assert(s.take(s.len() as int) =~= s);
        writer.finish()
    }

    /// The file of a table with all pairs, tombstones included, and a filter of `m`
    /// bits and `k` hash functions: a deletion in it hides what older files hold.
    pub fn flush_all(&self, m: usize, k: usize) -> (file: Vec<u8>)
        requires
            k > 0 ==> m > 0,
        ensures
            file@ == table_file(self.entries(), m as nat, k as nat),
    {
        let mut writer = SsTableWriter::new(m, k);
        let ghost s = self.entries();
        let mut i: usize = 0;
        assert(writer.entries() =~= s.take(0));
        while i < self.data.len()
            invariant
                s == self.entries(),
                s.len() == self.data.len(),
                0 <= i <= self.data.len(),
                writer.wf(),
                writer.entries() == s.take(i as int),
                writer.filter_bits() == m,
                writer.filter_hashes() == k,
            decreases self.data.len() - i,
        {
            assert(s[i as int] == (self.data[i as int].0@, self.data[i as int].1@));
            writer.add(self.data[i].0.as_slice(), self.data[i].1.as_slice());
            assert(s.take(i + 1) =~= s.take(i as int).push(s[i as int]));
            i = i + 1;
        }
        assert(s.take(s.len() as int) =~= s);
        writer.finish()
    }

    /// The pairs with keys in `[start, end)` that are not deleted, in key order.
    pub fn scan(&self, start: &[u8], end: &[u8]) -> (pairs: Vec<(&Vec<u8>, &Vec<u8>)>)
        requires
            self.wf(),
            !key_lt(end@, start@),
        ensures
            pairs_referred(pairs@) == live(self.entries()).filter(
                |p: Pair| in_range(p.0, start@, end@),
            ),
            pairs@.len() == live(self.entries()).filter(
                |p: Pair| in_range(p.0, start@, end@),
            ).len(),
            forall|i: int|
                0 <= i < pairs@.len() ==> ((#[trigger] pairs@[i]).0@, pairs@[i].1@) == live(
                    self.entries(),
                ).filter(|p: Pair| in_range(p.0, start@, end@))[i],
    {
        let first = self.rank_of(start);
        let past = self.rank_of(end);
        let ghost s = self.entries();
        let ghost keep = |p: Pair| in_range(p.0, start@, end@);
        let mut pairs: Vec<(&Vec<u8>, &Vec<u8>)> = Vec::new();
        let mut i: usize = first;
        proof {
            lemma_rank_monotonic(s, start@, end@);
            lemma_keys_outside_range(s, start@, end@);
            lemma_kept_same(s, keep, 0, first as int);
            reveal(Seq::filter);
            assert(live(s.take(0)) =~= Seq::<Pair>::empty());
            assert(pairs_referred(pairs@) =~= Seq::<Pair>::empty());
        }
        while i < past
            invariant
                self.wf(),
                s == self.entries(),
                s.len() == self.data.len(),
                first == rank(s, start@),
                past == rank(s, end@),
                first <= i <= past <= s.len(),
                keep == (|p: Pair| in_range(p.0, start@, end@)),
                pairs_referred(pairs@) == live(s.take(i as int)).filter(keep),
            decreases past - i,
        {
            let ghost before = pairs@;
            proof {
                lemma_keys_inside_range(s, start@, end@, i as int);
                lemma_kept_step(s, keep, i as int);
                assert(s[i as int] == (self.data[i as int].0@, self.data[i as int].1@));
            }
            if !is_tombstone(self.data[i].1.as_slice()) {
                pairs.push((&self.data[i].0, &self.data[i].1));
                assert(pairs_referred(pairs@) =~= pairs_referred(before).push(s[i as int]));
            }
            i = i + 1;
        }
        proof {
            lemma_kept_same(s, keep, past as int, s.len() as int);
            assert(s.take(s.len() as int) =~= s);
            assert forall|i: int| 0 <= i < pairs@.len() implies ((#[trigger] pairs@[i]).0@, pairs@[i].1@)
                == live(s).filter(keep)[i] by {
                assert(pairs_referred(pairs@)[i] == (pairs@[i].0@, pairs@[i].1@));
            }
        }
        pairs
    }
}

/// A greater key has no smaller rank.
proof fn lemma_rank_monotonic(s: Seq<Pair>, start: Seq<u8>, end: Seq<u8>)
    requires
        !key_lt(end, start),
    ensures
        rank(s, start) <= rank(s, end),
{
    lemma_rank(s, start);
    lemma_rank(s, end);
    if rank(s, end) < rank(s, start) {
        let p = s[rank(s, end) as int].0;
        lemma_key_lt_total(end, start);
        if end != start {
            lemma_key_lt_transitive(p, start, end);
        }
    }
}

/// Before the rank of `start` and from the rank of `end` on, no key is in range.
proof fn lemma_keys_outside_range(s: Seq<Pair>, start: Seq<u8>, end: Seq<u8>)
    requires
        strictly_sorted(s),
    ensures
        forall|i: int| 0 <= i < rank(s, start) ==> !in_range((#[trigger] s[i]).0, start, end),
        forall|i: int|
            rank(s, end) <= i < s.len() ==> !in_range((#[trigger] s[i]).0, start, end),
{
    lemma_rank(s, start);
    lemma_rank(s, end);
    let past = rank(s, end) as int;
    assert forall|i: int| past <= i < s.len() implies !in_range(
        (#[trigger] s[i]).0,
        start,
        end,
    ) by {
        if i > past && key_lt(s[i].0, end) {
            lemma_key_lt_transitive(s[past].0, s[i].0, end);
        }
    }
}

/// Between the two ranks every key is in range.
proof fn lemma_keys_inside_range(s: Seq<Pair>, start: Seq<u8>, end: Seq<u8>, i: int)
    requires
        strictly_sorted(s),
        rank(s, start) <= i < rank(s, end),
    ensures
        0 <= i < s.len(),
        in_range(s[i].0, start, end),
{
    lemma_rank(s, start);
    lemma_rank(s, end);
    let first = rank(s, start) as int;
    assert(key_lt(s[i].0, end));
    if i > first && key_lt(s[i].0, start) {
        lemma_key_lt_transitive(s[first].0, s[i].0, start);
    }
}

/// One more pair is kept if it is live and passes.
proof fn lemma_kept_step(s: Seq<Pair>, keep: spec_fn(Pair) -> bool, i: int)
    requires
        0 <= i < s.len(),
    ensures
        live(s.take(i + 1)).filter(keep) == (if s[i].1 != tombstone() && keep(s[i]) {
            live(s.take(i)).filter(keep).push(s[i])
        } else {
            live(s.take(i)).filter(keep)
        }),
{
    reveal(Seq::filter);
    assert(s.take(i + 1).drop_last() =~= s.take(i));
    if s[i].1 != tombstone() {
        let longer = live(s.take(i + 1));
        assert(longer =~= live(s.take(i)).push(s[i]));
        assert(longer.drop_last() =~= live(s.take(i)));
    }
}

/// Pairs that do not pass add nothing.
proof fn lemma_kept_same(s: Seq<Pair>, keep: spec_fn(Pair) -> bool, from: int, to: int)
    requires
        0 <= from <= to <= s.len(),
        forall|i: int| from <= i < to ==> !keep(#[trigger] s[i]),
    ensures
        live(s.take(to)).filter(keep) == live(s.take(from)).filter(keep),
    decreases to - from,
{
    if from < to {
        lemma_kept_same(s, keep, from, to - 1);
        lemma_kept_step(s, keep, to - 1);
    }
}

/// What a reader sees of a key in a table with the given contents.
pub open spec fn seen(table: Map<Seq<u8>, Seq<u8>>, key: Seq<u8>) -> Option<Seq<u8>> {
    if table.contains_key(key) {
        visible(table[key])
    } else {
        None
    }
}

/// The file of a table in memory holds of every key what a reader sees of it,
/// and no deleted key at all.
pub proof fn law_flushed_file_holds_live_pairs(entries: Seq<Pair>, m: nat, k: nat, key: Seq<u8>)
    requires
        strictly_sorted(entries),
        storable(live(entries), m, k),
    ensures
        opened(table_file(live(entries), m, k)) is Some,
        ({
            let table = opened(table_file(live(entries), m, k))->0;
            &&& index_sorted(table.index)
            &&& table.stored(key) == Ok::<Option<Seq<u8>>, SsTableError>(
                seen(contents(entries), key),
            )
            &&& table.pairs() == Some(live(entries))
        }),
{
    law_table_gives_back_its_pairs(live(entries), m, k, key);
    lemma_live_lookup(entries, key);
}

/// The size counts every key once: a new key adds its own length and that of its
/// value, an overwrite replaces the length of the old value by that of the new one.
/// A deletion counts as the value it stores.
pub proof fn law_size_counts_every_key_once(s: Seq<Pair>, key: Seq<u8>, value: Seq<u8>)
    requires
        strictly_sorted(s),
    ensures
        total_bytes(Seq::empty()) == 0,
        total_bytes(with_pair(s, key, value)) == (match lookup(s, key) {
            None => total_bytes(s) as int + key.len() + value.len(),
            Some(old_value) => total_bytes(s) - old_value.len() + value.len(),
        }),
        tombstone().len() == 13,
{
    let at = rank(s, key) as int;
    lemma_rank(s, key);
    lemma_lookup_at_rank(s, key);
    let front = s.take(at);
    let pair = seq![(key, value)];
    lemma_total_bytes_single((key, value));
    if at < s.len() && s[at].0 == key {
        let back = s.skip(at + 1);
        assert(with_pair(s, key, value) =~= front + pair + back);
        assert(s =~= front + seq![s[at]] + back);
        lemma_total_bytes_single(s[at]);
        lemma_total_bytes_concat(front, seq![s[at]]);
        lemma_total_bytes_concat(front + seq![s[at]], back);
        lemma_total_bytes_concat(front, pair);
        lemma_total_bytes_concat(front + pair, back);
    } else {
        let back = s.skip(at);
        assert(with_pair(s, key, value) =~= front + pair + back);
        assert(s =~= front + back);
        lemma_total_bytes_concat(front, back);
        lemma_total_bytes_concat(front, pair);
        lemma_total_bytes_concat(front + pair, back);
    }
}

proof fn lemma_total_bytes_single(p: Pair)
    ensures
        total_bytes(seq![p]) == p.0.len() + p.1.len(),
{
    assert(seq![p].drop_last() =~= Seq::<Pair>::empty());
    assert(total_bytes(Seq::<Pair>::empty()) == 0);
}

proof fn lemma_total_bytes_concat(a: Seq<Pair>, b: Seq<Pair>)
    ensures
        total_bytes(a + b) == total_bytes(a) + total_bytes(b),
    decreases b.len(),
{
    if b.len() == 0 {
        assert(a + b =~= a);
    } else {
        assert((a + b).drop_last() =~= a + b.drop_last());
        lemma_total_bytes_concat(a, b.drop_last());
    }
}

proof fn lemma_total_bytes_monotonic(s: Seq<Pair>, n: int)
    requires
        0 <= n <= s.len(),
    ensures
        total_bytes(s.take(n)) <= total_bytes(s),
    decreases s.len() - n,
{
    if n == s.len() {
        assert(s.take(n) =~= s);
    } else {
        lemma_total_bytes_monotonic(s, n + 1);
        assert(s.take(n + 1).drop_last() =~= s.take(n));
    }
}

} // verus!
